//! The query accumulator: an append-only, percent-encoded buffer of
//! `key=value` and bare-key segments, with serialization of structured
//! values delegated to `serde_urlencoded` and URL mutation to `url`.

use vstd::prelude::*;
use vstd::string::StringExecFns;

use crate::encoding::{
    encoded_str, entry_encoding, lemma_pairs_encoding_nonempty, lemma_query_encoding_concat,
    pairs_only, push_char, push_encoded, query_encoding, Entry,
};

verus! {

/// A value that could not be serialized to
/// `application/x-www-form-urlencoded` format, together with the error
/// that the serializer reported for it.
#[derive(Debug)]
pub struct Unserialized<T> {
    pub value: T,
    pub error: serde_urlencoded::ser::Error,
}

/// The error of a bulk extend: every value that could not be serialized
/// during one `try_extend` call, in encounter order. Never empty.
#[derive(Debug)]
pub struct TryExtendError<T> {
    unserialized: Vec<Unserialized<T>>,
}

impl<T> View for TryExtendError<T> {
    type V = Seq<Unserialized<T>>;

    closed spec fn view(&self) -> Seq<Unserialized<T>> {
        self.unserialized@
    }
}

impl<T> TryExtendError<T> {
    /// Returns the values that could not be serialized during the
    /// `try_extend` operation, in encounter order.
    pub fn unserialized(&self) -> (r: &[Unserialized<T>])
        ensures
            r@ == self@,
    {
        self.unserialized.as_slice()
    }

    /// Consumes the error, returning the failed values and their errors.
    pub fn into_unserialized(self) -> (r: Vec<Unserialized<T>>)
        ensures
            r@ == self@,
    {
        self.unserialized
    }

    /// A human-readable description of the error.
    pub fn message(&self) -> (r: String)
        ensures
            r@ == "could not serialize one or more values while extending the query string"@,
    {
        String::from_str("could not serialize one or more values while extending the query string")
    }
}

/// The original values held by a sequence of failed-serialization records.
pub open spec fn unserialized_values<T>(errs: Seq<Unserialized<T>>) -> Seq<T> {
    errs.map_values(|u: Unserialized<T>| u.value)
}

/// The entries contributed by a sequence of name/value string pairs.
pub open spec fn pair_entries(pairs: Seq<(String, String)>) -> Seq<Entry> {
    pairs.map_values(|p: (String, String)| Entry::Pair { key: p.0@, value: p.1@ })
}

/// The entries contributed by a sequence of bare names.
pub open spec fn key_entries(keys: Seq<String>) -> Seq<Entry> {
    keys.map_values(|k: String| Entry::KeyOnly { key: k@ })
}

/// The entries contributed by the successful steps of a bulk extend, in
/// order; each step either appended a run of entries or failed and
/// appended nothing.
pub open spec fn appended_entries(outs: Seq<Option<Seq<Entry>>>) -> Seq<Entry>
    decreases outs.len(),
{
    if outs.len() == 0 {
        Seq::empty()
    } else {
        appended_entries(outs.drop_last()) + (match outs.last() {
            Some(es) => es,
            None => Seq::empty(),
        })
    }
}

/// The items at the failed steps of a bulk extend, in encounter order.
pub open spec fn failed_values<T>(items: Seq<T>, outs: Seq<Option<Seq<Entry>>>) -> Seq<T>
    recommends
        items.len() == outs.len(),
    decreases outs.len(),
{
    if outs.len() == 0 || items.len() != outs.len() {
        Seq::empty()
    } else {
        failed_values(items.drop_last(), outs.drop_last()) + (if outs.last() is None {
            seq![items.last()]
        } else {
            Seq::empty()
        })
    }
}

/// The run of entries contributed by one step of a bulk extend: a failed
/// step contributes nothing.
pub open spec fn step_run(out: Option<Seq<Entry>>) -> Seq<Entry> {
    match out {
        Some(es) => es,
        None => Seq::empty(),
    }
}

/// The accumulator entries left by handing each step's run to one append
/// in turn, threading the state left to right — the shape of calling
/// `try_append` once per item in sequence.
pub open spec fn sequential_append(before: Seq<Entry>, outs: Seq<Option<Seq<Entry>>>) -> Seq<Entry>
    decreases outs.len(),
{
    if outs.len() == 0 {
        before
    } else {
        sequential_append(before + step_run(outs.first()), outs.drop_first())
    }
}

/// A bulk extend's entries decompose at the front: the first step's run,
/// then the remaining steps' entries.
proof fn lemma_appended_entries_first(outs: Seq<Option<Seq<Entry>>>)
    requires
        outs.len() > 0,
    ensures
        appended_entries(outs) == step_run(outs.first()) + appended_entries(outs.drop_first()),
    decreases outs.len(),
{
    if outs.len() == 1 {
        assert(outs.drop_last() =~= Seq::<Option<Seq<Entry>>>::empty());
        assert(outs.drop_first() =~= Seq::<Option<Seq<Entry>>>::empty());
        assert(appended_entries(outs) =~= step_run(outs.first()) + appended_entries(
            outs.drop_first(),
        ));
    } else {
        let shorter = outs.drop_last();
        lemma_appended_entries_first(shorter);
        assert(outs.drop_first().drop_last() =~= shorter.drop_first());
        assert(outs.drop_first().last() == outs.last());
        assert(outs.drop_first().len() > 0);
        assert(appended_entries(outs.drop_first()) == appended_entries(shorter.drop_first())
            + step_run(outs.last()));
        assert(step_run(outs.first()) + (appended_entries(shorter.drop_first()) + step_run(
            outs.last(),
        )) =~= (step_run(outs.first()) + appended_entries(shorter.drop_first())) + step_run(
            outs.last(),
        ));
    }
}

/// Law: a bulk extend leaves the accumulator exactly as appending each
/// item's run in turn would — output order is input order, and the bulk
/// operation equals one append per item in sequence.
pub proof fn lemma_extend_matches_sequential_append(
    before: Seq<Entry>,
    outs: Seq<Option<Seq<Entry>>>,
)
    ensures
        sequential_append(before, outs) == before + appended_entries(outs),
    decreases outs.len(),
{
    if outs.len() == 0 {
        assert(before + appended_entries(outs) =~= before);
    } else {
        lemma_appended_entries_first(outs);
        lemma_extend_matches_sequential_append(
            before + step_run(outs.first()),
            outs.drop_first(),
        );
        assert((before + step_run(outs.first())) + appended_entries(outs.drop_first()) =~= before
            + (step_run(outs.first()) + appended_entries(outs.drop_first())));
    }
}

/// Whether every successful step of a bulk extend contributed only
/// `key=value` pairs.
pub open spec fn outs_all_pairs(outs: Seq<Option<Seq<Entry>>>) -> bool {
    forall|i: int| 0 <= i < outs.len() ==> (#[trigger] outs[i] matches Some(es) ==> pairs_only(es))
}

/// Relies on `serde_urlencoded::to_string`: its serializer builds the
/// output exclusively through `form_urlencoded`'s `append_pair`, so a
/// successful result is the query encoding of some sequence of
/// `key=value` pair entries.
#[verifier::external_body]
fn serialize_to_query<T: serde::Serialize>(value: &T) -> (r: Result<
    String,
    serde_urlencoded::ser::Error,
>)
    ensures
        (r matches Ok(s) ==> exists|es: Seq<Entry>| pairs_only(es) && s@ == query_encoding(es)),
{
    serde_urlencoded::to_string(value)
}

/// The query component that a URL currently holds, if any.
pub uninterp spec fn url_query_model(u: url::Url) -> Option<Seq<char>>;

/// Everything of a URL but its query component: scheme, authority, path
/// and fragment.
pub uninterp spec fn url_without_query_model(u: url::Url) -> Seq<char>;

/// Relies on `url::Url::set_query`: passing `Some(query)` replaces the
/// URL's entire query component with `query` and leaves the rest of the
/// URL — scheme, authority, path and fragment — unchanged. Characters
/// outside the URL query-safe set would be re-encoded on the way in (and
/// tabs or newlines removed), so the replacement is stated only for
/// strings within this library's own output alphabet, which such a URL
/// stores verbatim; the rest of the URL is preserved whatever the string.
#[verifier::external_body]
fn url_set_query(url: &mut url::Url, query: &str)
    ensures
        crate::encoding::query_output_chars(query@) ==> url_query_model(*final(url)) == Some(
            query@,
        ),
        url_without_query_model(*final(url)) == url_without_query_model(*old(url)),
{
    url.set_query(Some(query))
}

/// The error type of the underlying serializer, treated as opaque.
#[verifier::external_type_specification]
#[verifier::external_body]
pub struct ExSerError(serde_urlencoded::ser::Error);

/// The URL type of the `url` crate, treated as opaque.
#[verifier::external_type_specification]
#[verifier::external_body]
pub struct ExUrl(url::Url);

/// An incrementally built `application/x-www-form-urlencoded` query string.
///
/// The abstract state is the sequence of entries appended so far; the
/// buffer always holds exactly the encoding of that sequence.
pub struct UrlEncodedQuery {
    buf: String,
    entries: Ghost<Seq<Entry>>,
}

impl View for UrlEncodedQuery {
    type V = Seq<Entry>;

    closed spec fn view(&self) -> Seq<Entry> {
        self.entries@
    }
}

impl UrlEncodedQuery {
    /// The buffer holds exactly the encoding of the entries appended so far.
    pub closed spec fn wf(&self) -> bool {
        self.buf@ == query_encoding(self.entries@)
    }

    /// Creates a new, empty URL encoded query string.
    pub fn new() -> (r: UrlEncodedQuery)
        ensures
            r.wf(),
            r@ == Seq::<Entry>::empty(),
    {
        UrlEncodedQuery { buf: String::new(), entries: Ghost(Seq::empty()) }
    }

    /// Serialize and append a name/value pair.
    pub fn append_pair(&mut self, name: &str, value: &str)
        requires
            old(self).wf(),
        ensures
            final(self).wf(),
            final(self)@ == old(self)@.push(Entry::Pair { key: name@, value: value@ }),
    {
        let ghost prev = self.entries@;
        let ghost e = Entry::Pair { key: name@, value: value@ };
        if !self.buf.as_str().is_empty() {
            push_char(&mut self.buf, '&');
        }
        push_encoded(&mut self.buf, name.as_bytes());
        push_char(&mut self.buf, '=');
        push_encoded(&mut self.buf, value.as_bytes());
        proof {
            assert(prev.push(e).drop_last() =~= prev);
            assert(prev.push(e).last() == e);
            assert(entry_encoding(e) == encoded_str(name@) + seq!['='] + encoded_str(value@));
            if query_encoding(prev).len() == 0 {
                assert(self.buf@ =~= query_encoding(prev.push(e)));
            } else {
                assert(self.buf@ =~= query_encoding(prev) + seq!['&'] + entry_encoding(e));
                assert(self.buf@ =~= query_encoding(prev.push(e)));
            }
        }
        self.entries = Ghost(prev.push(e));
    }

    /// Serialize and append the name of a parameter without any value.
    pub fn append_key_only(&mut self, name: &str)
        requires
            old(self).wf(),
        ensures
            final(self).wf(),
            final(self)@ == old(self)@.push(Entry::KeyOnly { key: name@ }),
    {
        let ghost prev = self.entries@;
        let ghost e = Entry::KeyOnly { key: name@ };
        if !self.buf.as_str().is_empty() {
            push_char(&mut self.buf, '&');
        }
        push_encoded(&mut self.buf, name.as_bytes());
        proof {
            assert(prev.push(e).drop_last() =~= prev);
            assert(prev.push(e).last() == e);
            assert(self.buf@ =~= query_encoding(prev.push(e)));
        }
        self.entries = Ghost(prev.push(e));
    }

    /// Creates a new URL encoded query string from an initial,
    /// serializable value.
    ///
    /// Fails if the value cannot be serialized to
    /// `application/x-www-form-urlencoded` format; no accumulator is
    /// observable on failure.
    pub fn try_new<T: serde::Serialize>(value: &T) -> (r: Result<
        UrlEncodedQuery,
        serde_urlencoded::ser::Error,
    >)
        ensures
            (r matches Ok(q) ==> q.wf() && pairs_only(q@)),
    {
        let mut query = UrlEncodedQuery::new();
        match query.try_append(value) {
            Ok(()) => {
                proof {
                    let es = choose|es: Seq<Entry>|
                        pairs_only(es) && query@ == Seq::<Entry>::empty() + es;
                    assert(query@ =~= es);
                }
                Ok(query)
            },
            Err(error) => Err(error),
        }
    }

    /// Serialize and append a serializable value.
    ///
    /// On success the value's `key=value` pairs are appended, in the
    /// value's own field or iteration order; on failure the accumulator
    /// is left unchanged.
    pub fn try_append<T: serde::Serialize>(&mut self, value: &T) -> (r: Result<
        (),
        serde_urlencoded::ser::Error,
    >)
        requires
            old(self).wf(),
        ensures
            final(self).wf(),
            (r is Ok ==> exists|es: Seq<Entry>|
                pairs_only(es) && final(self)@ == old(self)@ + es),
            (r is Err ==> final(self)@ == old(self)@),
    {
        match serialize_to_query(value) {
            Ok(s) => {
                let ghost es = choose|es: Seq<Entry>|
                    pairs_only(es) && s@ == query_encoding(es);
                self.append_encoded_run(s.as_str(), Ghost(es));
                Ok(())
            },
            Err(error) => Err(error),
        }
    }

    /// Splices an already-encoded run of `key=value` pairs into the
    /// buffer: nothing for an empty run, and otherwise the run itself,
    /// preceded by `&` when the buffer is non-empty.
    fn append_encoded_run(&mut self, encoded: &str, Ghost(es): Ghost<Seq<Entry>>)
        requires
            old(self).wf(),
            pairs_only(es),
            encoded@ == query_encoding(es),
        ensures
            final(self).wf(),
            final(self)@ == old(self)@ + es,
    {
        let ghost prev = self.entries@;
        proof {
            lemma_query_encoding_concat(prev, es);
        }
        if !encoded.is_empty() {
            proof {
                if es.len() == 0 {
                    assert(encoded@ =~= Seq::<char>::empty());
                }
            }
            if !self.buf.as_str().is_empty() {
                push_char(&mut self.buf, '&');
            }
            self.buf.append(encoded);
            proof {
                assert(self.buf@ =~= query_encoding(prev + es));
            }
        } else {
            proof {
                if es.len() > 0 {
                    lemma_pairs_encoding_nonempty(es);
                }
                assert(prev + es =~= prev);
            }
        }
        self.entries = Ghost(prev + es);
    }

    /// Serialize and append a number of values.
    ///
    /// Every item is attempted in order, with no short-circuit: items
    /// that serialize contribute their pairs in encounter order, failed
    /// items contribute nothing. If any item failed, the returned error
    /// holds each failed value, in encounter order.
    pub fn try_extend<T: serde::Serialize>(&mut self, items: Vec<T>) -> (r: Result<
        (),
        TryExtendError<T>,
    >)
        requires
            old(self).wf(),
        ensures
            final(self).wf(),
            (r is Ok ==> exists|outs: Seq<Option<Seq<Entry>>>|
                {
                    &&& outs.len() == items@.len()
                    &&& (forall|i: int| 0 <= i < outs.len() ==> outs[i] is Some)
                    &&& outs_all_pairs(outs)
                    &&& final(self)@ == old(self)@ + appended_entries(outs)
                }),
            (r matches Err(e) ==> e@.len() > 0 && exists|outs: Seq<Option<Seq<Entry>>>|
                {
                    &&& outs.len() == items@.len()
                    &&& outs_all_pairs(outs)
                    &&& final(self)@ == old(self)@ + appended_entries(outs)
                    &&& unserialized_values(e@) == failed_values(items@, outs)
                }),
    {
        let ghost orig_items = items@;
        let ghost prev = self.entries@;
        let mut items = items;
        let mut unserialized: Vec<Unserialized<T>> = Vec::new();
        let ghost mut outs: Seq<Option<Seq<Entry>>> = Seq::empty();
        proof {
            assert(orig_items.take(0) =~= Seq::<T>::empty());
        }
        while items.len() > 0
            invariant
                self.wf(),
                outs.len() + items@.len() == orig_items.len(),
                items@ == orig_items.subrange(outs.len() as int, orig_items.len() as int),
                outs_all_pairs(outs),
                self@ == prev + appended_entries(outs),
                unserialized_values(unserialized@) == failed_values(
                    orig_items.take(outs.len() as int),
                    outs,
                ),
                unserialized@.len() == 0 ==> (forall|i: int|
                    0 <= i < outs.len() ==> outs[i] is Some),
            decreases items@.len(),
        {
            let ghost k = outs.len() as int;
            let value = items.remove(0);
            proof {
                assert(value == orig_items[k]);
                assert(items@ =~= orig_items.subrange(k + 1, orig_items.len() as int));
                assert(orig_items.take(k + 1).drop_last() =~= orig_items.take(k));
                assert(orig_items.take(k + 1).last() == orig_items[k]);
            }
            let ghost before = self.entries@;
            match self.try_append(&value) {
                Ok(()) => {
                    proof {
                        let es = choose|es: Seq<Entry>|
                            pairs_only(es) && self.entries@ == before + es;
                        let new_outs = outs.push(Some(es));
                        assert(new_outs.drop_last() =~= outs);
                        assert(appended_entries(new_outs) == appended_entries(outs) + es);
                        assert(self@ =~= prev + appended_entries(new_outs));
                        assert(failed_values(orig_items.take(k + 1), new_outs) =~= failed_values(
                            orig_items.take(k),
                            outs,
                        ));
                        outs = new_outs;
                    }
                },
                Err(error) => {
                    unserialized.push(Unserialized { value, error });
                    proof {
                        let new_outs = outs.push(None);
                        assert(new_outs.drop_last() =~= outs);
                        assert(appended_entries(new_outs) =~= appended_entries(outs));
                        assert(failed_values(orig_items.take(k + 1), new_outs) =~= failed_values(
                            orig_items.take(k),
                            outs,
                        ).push(orig_items[k]));
                        assert(unserialized_values(unserialized@) =~= failed_values(
                            orig_items.take(k + 1),
                            new_outs,
                        ));
                        outs = new_outs;
                    }
                },
            }
        }
        proof {
            assert(orig_items.take(outs.len() as int) =~= orig_items);
        }
        if unserialized.is_empty() {
            Ok(())
        } else {
            let error = TryExtendError { unserialized };
            Err(error)
        }
    }

    /// Serialize and append a number of name/value pairs, in order.
    pub fn extend_pairs(&mut self, pairs: &Vec<(String, String)>)
        requires
            old(self).wf(),
        ensures
            final(self).wf(),
            final(self)@ == old(self)@ + pair_entries(pairs@),
    {
        let ghost prev = self.entries@;
        let mut i: usize = 0;
        proof {
            assert(pair_entries(pairs@.take(0)) =~= Seq::<Entry>::empty());
            assert(self@ =~= prev + pair_entries(pairs@.take(0)));
        }
        while i < pairs.len()
            invariant
                old(self).wf(),
                self.wf(),
                i <= pairs@.len(),
                self@ == prev + pair_entries(pairs@.take(i as int)),
            decreases pairs@.len() - i,
        {
            let pair = &pairs[i];
            self.append_pair(pair.0.as_str(), pair.1.as_str());
            proof {
                assert(pairs@.take(i + 1).drop_last() =~= pairs@.take(i as int));
                assert(pair_entries(pairs@.take(i + 1)) =~= pair_entries(
                    pairs@.take(i as int),
                ).push(Entry::Pair { key: pairs@[i as int].0@, value: pairs@[i as int].1@ }));
                assert(self@ =~= prev + pair_entries(pairs@.take(i + 1)));
            }
            i = i + 1;
        }
        proof {
            assert(pairs@.take(pairs@.len() as int) =~= pairs@);
        }
    }

    /// Serialize and append a number of names without values, in order.
    pub fn extend_keys_only(&mut self, keys: &Vec<String>)
        requires
            old(self).wf(),
        ensures
            final(self).wf(),
            final(self)@ == old(self)@ + key_entries(keys@),
    {
        let ghost prev = self.entries@;
        let mut i: usize = 0;
        proof {
            assert(key_entries(keys@.take(0)) =~= Seq::<Entry>::empty());
            assert(self@ =~= prev + key_entries(keys@.take(0)));
        }
        while i < keys.len()
            invariant
                old(self).wf(),
                self.wf(),
                i <= keys@.len(),
                self@ == prev + key_entries(keys@.take(i as int)),
            decreases keys@.len() - i,
        {
            self.append_key_only(keys[i].as_str());
            proof {
                assert(keys@.take(i + 1).drop_last() =~= keys@.take(i as int));
                assert(key_entries(keys@.take(i + 1)) =~= key_entries(keys@.take(i as int)).push(
                    Entry::KeyOnly { key: keys@[i as int]@ },
                ));
                assert(self@ =~= prev + key_entries(keys@.take(i + 1)));
            }
            i = i + 1;
        }
        proof {
            assert(keys@.take(keys@.len() as int) =~= keys@);
        }
    }

    /// Sets a URL's query string to the produced URL encoded string,
    /// replacing any prior query entirely, whatever it was, and leaving
    /// the rest of the URL unchanged. Consumes the accumulator, so the
    /// underlying buffer can never be finalized twice.
    pub fn set_url(self, url: &mut url::Url)
        requires
            self.wf(),
        ensures
            url_query_model(*final(url)) == Some(query_encoding(self@)),
            url_without_query_model(*final(url)) == url_without_query_model(*old(url)),
    {
        let ghost entries = self@;
        let query = self.finalize_into_string();
        proof {
            crate::encoding::lemma_query_encoding_output_chars(entries);
        }
        url_set_query(url, query.as_str());
    }

    /// Removes any existing name/value pair.
    pub fn clear(&mut self)
        ensures
            final(self).wf(),
            final(self)@ == Seq::<Entry>::empty(),
    {
        self.buf = String::new();
        self.entries = Ghost(Seq::empty());
    }

    /// Consumes the accumulator and returns the final encoded string.
    pub fn finalize_into_string(self) -> (r: String)
        requires
            self.wf(),
        ensures
            r@ == query_encoding(self@),
    {
        self.buf
    }
}

impl Default for UrlEncodedQuery {
    /// Create a new, empty URL encoded query string.
    fn default() -> (r: Self)
        ensures
            r.wf(),
            r@ == Seq::<Entry>::empty(),
    {
        UrlEncodedQuery::new()
    }
}

/// Law: an accumulator fresh from `new` and one just cleared, whatever
/// its prior state, hold the same entries and finalize to the same
/// output: the empty string.
pub proof fn lemma_clear_matches_new(fresh: UrlEncodedQuery, cleared: UrlEncodedQuery)
    requires
        fresh@ == Seq::<Entry>::empty(),
        cleared@ == Seq::<Entry>::empty(),
    ensures
        query_encoding(fresh@) == query_encoding(cleared@),
        query_encoding(cleared@) == Seq::<char>::empty(),
{
}

} // verus!
