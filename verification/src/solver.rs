//! The recognition engine: a reference store of known glyph fingerprints and
//! the classification and resolution logic built on it.

use vstd::prelude::*;
use crate::raster::{
    GrayImg, ImgV, spec_fingerprint, spec_letters, spec_merge, extract_letters, fingerprint_image,
    merge_images, lemma_regions_ordered, lemma_no_ink_no_regions, spec_regions, nat_max, INK_MAX,
    spec_grayscale, to_gray,
};
use crate::text::{spec_lower, spec_match_count, match_count, string_from_chars, to_lower};

verus! {

/// Relies on `bincode::ErrorKind` (the pointee of `bincode::Error`): the
/// decoder's description of why the corpus bytes could not be decoded. The
/// library only carries it out of the decode call, never looks into it.
#[verifier::external_type_specification]
#[verifier::external_body]
pub struct ExBincodeErrorKind(bincode::ErrorKind);

/// A reference store, as contracts see it: the ordered entries, each a
/// fingerprint (a sequence of characters) paired with the character it names.
pub type StoreV = Seq<(Seq<char>, char)>;

/// The fingerprints of the entries are pairwise distinct, so the store is a
/// mapping.
pub open spec fn store_distinct(store: StoreV) -> bool {
    forall|i: int, j: int| 0 <= i < j < store.len() ==> store[i].0 != store[j].0
}

/// A well-formed fingerprint key: non-empty and composed solely of `'0'` and
/// `'1'`.
pub open spec fn fp_valid(k: Seq<char>) -> bool {
    k.len() > 0 && forall|i: int| 0 <= i < k.len() ==> k[i] == '0' || k[i] == '1'
}

/// Every fingerprint key of the store is well-formed.
pub open spec fn store_keys_valid(store: StoreV) -> bool {
    forall|i: int| 0 <= i < store.len() ==> fp_valid((#[trigger] store[i]).0)
}

/// Every key of a decoded mapping is a well-formed fingerprint.
pub open spec fn corpus_keys_valid(m: Map<Seq<char>, char>) -> bool {
    forall|k: Seq<char>| m.dom().contains(k) ==> fp_valid(k)
}

/// Construction failure: the serialized reference corpus could not be
/// decoded.
#[derive(Debug, PartialEq, Eq, Structural, Clone, Copy)]
pub struct LoadError;

/// The recognition engine: an immutable reference store mapping glyph
/// fingerprints to characters, never mutated after construction.
pub struct Solver {
    training_data: Vec<(String, char)>,
}

impl View for Solver {
    type V = StoreV;

    closed spec fn view(&self) -> StoreV {
        self.training_data@.map_values(|e: (String, char)| (e.0@, e.1))
    }
}

/// The character of the first entry whose fingerprint equals `fp` exactly,
/// if any entry's does.
pub open spec fn spec_lookup(store: StoreV, fp: Seq<char>) -> Option<char>
    decreases store.len(),
{
    if store.len() == 0 {
        None
    } else if store[0].0 == fp {
        Some(store[0].1)
    } else {
        spec_lookup(store.drop_first(), fp)
    }
}

/// The winner of the similarity scan over `store`, starting from the current
/// best `cur` with score `cur_score`: an entry takes over only with a score
/// strictly above the best so far, so the first of equally scored entries
/// wins.
pub open spec fn spec_best_from(store: StoreV, fp: Seq<char>, cur: char, cur_score: nat) -> char
    decreases store.len(),
{
    if store.len() == 0 {
        cur
    } else if spec_match_count(fp, store[0].0) > cur_score {
        spec_best_from(store.drop_first(), fp, store[0].1, spec_match_count(fp, store[0].0))
    } else {
        spec_best_from(store.drop_first(), fp, cur, cur_score)
    }
}

/// The most similar entry's character: the first entry with the maximal
/// score wins, the scan starting from the first entry itself, so a non-empty
/// store always yields a stored character — even when every score is zero.
/// Only an empty store yields the sentinel blank.
pub open spec fn spec_most_similar(store: StoreV, fp: Seq<char>) -> char {
    if store.len() == 0 {
        ' '
    } else {
        spec_best_from(store.drop_first(), fp, store[0].1, spec_match_count(fp, store[0].0))
    }
}

/// Classification of one fingerprint: the exact match where one exists, else
/// the most similar entry's character.
pub open spec fn spec_classify(store: StoreV, fp: Seq<char>) -> char {
    match spec_lookup(store, fp) {
        Some(c) => c,
        None => spec_most_similar(store, fp),
    }
}

/// The exact lookup returns the entry at `i` when no earlier entry's
/// fingerprint equals `fp`.
proof fn lemma_lookup_hit(store: StoreV, fp: Seq<char>, i: int)
    requires
        0 <= i < store.len(),
        store[i].0 == fp,
        forall|k: int| 0 <= k < i ==> (#[trigger] store[k]).0 != fp,
    ensures
        spec_lookup(store, fp) == Some(store[i].1),
    decreases store.len(),
{
    if i > 0 {
        lemma_lookup_hit(store.drop_first(), fp, i - 1);
    }
}

/// The exact lookup fails when no entry's fingerprint equals `fp`.
proof fn lemma_lookup_miss(store: StoreV, fp: Seq<char>)
    requires
        forall|k: int| 0 <= k < store.len() ==> (#[trigger] store[k]).0 != fp,
    ensures
        spec_lookup(store, fp) is None,
    decreases store.len(),
{
    if store.len() > 0 {
        lemma_lookup_miss(store.drop_first(), fp);
    }
}

/// Exact-match idempotence: a fingerprint that stands literally in a store
/// with distinct keys classifies, through the exact-lookup path alone, to
/// that entry's character.
pub proof fn lemma_exact_match(store: StoreV, fp: Seq<char>, i: int)
    requires
        store_distinct(store),
        0 <= i < store.len(),
        store[i].0 == fp,
    ensures
        spec_lookup(store, fp) == Some(store[i].1),
        spec_classify(store, fp) == store[i].1,
{
    assert(forall|k: int| 0 <= k < i ==> (#[trigger] store[k]).0 != fp);
    lemma_lookup_hit(store, fp, i);
}

/// What `bincode::deserialize` makes of corpus bytes: the mapping from
/// fingerprint to character they decode to, or nothing where they do not
/// decode. Both are functions of the bytes alone; only the order in which
/// the decoded map hands its entries out is not, so the name yields a
/// mapping, not a sequence.
pub uninterp spec fn corpus_of(data: Seq<u8>) -> Option<Map<Seq<char>, char>>;

/// Relies on `bincode::deserialize` with its default configuration: whether
/// the bytes decode into a `HashMap` from fingerprint string to character,
/// and to which mapping, depend on the bytes alone (`corpus_of` names that
/// mapping); a decoded `HashMap`'s keys are pairwise distinct and walking it
/// hands out exactly the mapping's pairs, in an order that is no function of
/// the bytes.
#[verifier::external_body]
fn decode_corpus(data: &[u8]) -> (r: Result<Vec<(String, char)>, bincode::Error>)
    ensures
        r is Ok <==> corpus_of(data@) is Some,
        r is Ok ==> {
            let m = corpus_of(data@).unwrap();
            let v = r.unwrap()@;
            &&& forall|i: int, j: int| 0 <= i < j < v.len() ==> v[i].0@ != v[j].0@
            &&& forall|i: int| 0 <= i < v.len() ==> m.contains_pair((#[trigger] v[i]).0@, v[i].1)
            &&& forall|k: Seq<char>|
                m.dom().contains(k) ==> exists|i: int|
                    0 <= i < v.len() && (#[trigger] v[i]).0@ == k
        },
{
    match bincode::deserialize::<std::collections::HashMap<String, char>>(data) {
        Ok(map) => Ok(map.into_iter().collect()),
        Err(e) => Err(e),
    }
}

/// Entry lists as contracts see them: each fingerprint as its character
/// sequence.
pub open spec fn spec_entries(v: Seq<(String, char)>) -> StoreV {
    v.map_values(|e: (String, char)| (e.0@, e.1))
}

/// The position of the first entry whose fingerprint equals `k`, if any
/// entry's does.
pub open spec fn spec_find(store: StoreV, k: Seq<char>) -> Option<int>
    decreases store.len(),
{
    if store.len() == 0 {
        None
    } else if store[0].0 == k {
        Some(0)
    } else {
        match spec_find(store.drop_first(), k) {
            Some(i) => Some(i + 1),
            None => None,
        }
    }
}

/// What `spec_find` returns: the first position holding `k`, or nothing
/// when no position does.
proof fn lemma_find_spec(store: StoreV, k: Seq<char>)
    ensures
        spec_find(store, k) is Some ==> {
            let i = spec_find(store, k).unwrap();
            &&& 0 <= i < store.len()
            &&& store[i].0 == k
            &&& forall|j: int| 0 <= j < i ==> (#[trigger] store[j]).0 != k
        },
        spec_find(store, k) is None ==> forall|j: int|
            0 <= j < store.len() ==> (#[trigger] store[j]).0 != k,
    decreases store.len(),
{
    if store.len() > 0 && store[0].0 != k {
        lemma_find_spec(store.drop_first(), k);
        if spec_find(store, k) is Some {
            let i = spec_find(store, k).unwrap();
            assert(store.drop_first()[i - 1] == store[i]);
            assert forall|j: int| 0 <= j < i implies (#[trigger] store[j]).0 != k by {
                if j > 0 {
                    assert(store.drop_first()[j - 1] == store[j]);
                }
            }
        } else {
            assert forall|j: int| 0 <= j < store.len() implies (#[trigger] store[j]).0 != k by {
                if j > 0 {
                    assert(store.drop_first()[j - 1] == store[j]);
                }
            }
        }
    }
}

/// `spec_find` returns the position of a match that no earlier position
/// shares.
proof fn lemma_find_converse(store: StoreV, k: Seq<char>, i: int)
    requires
        0 <= i < store.len(),
        store[i].0 == k,
        forall|j: int| 0 <= j < i ==> (#[trigger] store[j]).0 != k,
    ensures
        spec_find(store, k) == Some(i),
    decreases store.len(),
{
    if i > 0 {
        lemma_find_converse(store.drop_first(), k, i - 1);
    }
}

/// The store that loading an entry list yields: fingerprints keep their
/// first-occurrence order, and of entries sharing a fingerprint the last
/// one's character wins.
pub open spec fn spec_load(entries: StoreV) -> StoreV
    decreases entries.len(),
{
    if entries.len() == 0 {
        Seq::empty()
    } else {
        let prev = spec_load(entries.drop_last());
        let e = entries.last();
        match spec_find(prev, e.0) {
            Some(i) => prev.update(i, e),
            None => prev.push(e),
        }
    }
}

/// Loading pairwise-distinct entries keeps them exactly as they are.
proof fn lemma_load_distinct_identity(entries: StoreV)
    requires
        store_distinct(entries),
    ensures
        spec_load(entries) == entries,
    decreases entries.len(),
{
    if entries.len() > 0 {
        let prefix = entries.drop_last();
        let e = entries.last();
        assert forall|i: int, j: int| 0 <= i < j < prefix.len() implies prefix[i].0 != prefix[j].0
        by {
            assert(prefix[i] == entries[i]);
            assert(prefix[j] == entries[j]);
        }
        lemma_load_distinct_identity(prefix);
        lemma_find_spec(prefix, e.0);
        if spec_find(prefix, e.0) is Some {
            let i = spec_find(prefix, e.0).unwrap();
            assert(prefix[i] == entries[i]);
            assert(entries[i].0 == entries[entries.len() - 1].0);
        }
        assert(prefix.push(e) =~= entries);
    }
}

/// Every entry of the loaded store is one of the entries given to load.
proof fn lemma_load_elements(entries: StoreV)
    ensures
        forall|i: int|
            0 <= i < spec_load(entries).len() ==> exists|j: int|
                0 <= j < entries.len() && #[trigger] spec_load(entries)[i] == entries[j],
    decreases entries.len(),
{
    if entries.len() > 0 {
        let prefix = entries.drop_last();
        let e = entries.last();
        lemma_load_elements(prefix);
        let prev = spec_load(prefix);
        let cur = spec_load(entries);
        lemma_find_spec(prev, e.0);
        assert forall|i: int|
            0 <= i < cur.len() implies exists|j: int|
            0 <= j < entries.len() && #[trigger] cur[i] == entries[j] by {
            match spec_find(prev, e.0) {
                Some(k) => {
                    assert(cur == prev.update(k, e));
                    if i == k {
                        assert(cur[i] == entries[entries.len() - 1]);
                    } else {
                        assert(cur[i] == prev[i]);
                        let j = choose|j: int| 0 <= j < prefix.len() && prev[i] == prefix[j];
                        assert(cur[i] == entries[j]);
                    }
                },
                None => {
                    assert(cur == prev.push(e));
                    if i == prev.len() {
                        assert(cur[i] == entries[entries.len() - 1]);
                    } else {
                        assert(cur[i] == prev[i]);
                        let j = choose|j: int| 0 <= j < prefix.len() && prev[i] == prefix[j];
                        assert(cur[i] == entries[j]);
                    }
                },
            }
        }
    }
}

/// Whether the fingerprint is well-formed: non-empty, solely `'0'`/`'1'`.
fn key_valid(key: &str) -> (r: bool)
    ensures
        r == fp_valid(key@),
{
    let n = key.unicode_len();
    if n == 0 {
        return false;
    }
    let mut i: usize = 0;
    while i < n
        invariant
            n == key@.len(),
            i <= n,
            forall|k: int| 0 <= k < i ==> key@[k] == '0' || key@[k] == '1',
        decreases n - i,
    {
        let c = key.get_char(i);
        if !(c == '0' || c == '1') {
            return false;
        }
        i += 1;
    }
    true
}

/// Whether every entry's fingerprint is well-formed.
fn entries_keys_valid(entries: &Vec<(String, char)>) -> (r: bool)
    ensures
        r == store_keys_valid(spec_entries(entries@)),
{
    let n = entries.len();
    let mut i: usize = 0;
    while i < n
        invariant
            n == entries@.len(),
            i <= n,
            forall|k: int| 0 <= k < i ==> fp_valid((#[trigger] spec_entries(entries@)[k]).0),
        decreases n - i,
    {
        let ok = key_valid(entries[i].0.as_str());
        proof {
            assert(spec_entries(entries@)[i as int].0 == entries@[i as int].0@);
        }
        if !ok {
            return false;
        }
        i += 1;
    }
    true
}

/// The position of the first store entry whose fingerprint equals `key`.
fn find_key(td: &Vec<(String, char)>, key: &String) -> (r: Option<usize>)
    ensures
        r is Some ==> spec_find(spec_entries(td@), key@) == Some(r.unwrap() as int),
        r is None ==> spec_find(spec_entries(td@), key@) is None,
{
    let n = td.len();
    let mut i: usize = 0;
    while i < n
        invariant
            n == td@.len(),
            i <= n,
            forall|j: int| 0 <= j < i ==> (#[trigger] spec_entries(td@)[j]).0 != key@,
        decreases n - i,
    {
        if td[i].0 == *key {
            proof {
                assert(spec_entries(td@)[i as int].0 == key@);
                lemma_find_converse(spec_entries(td@), key@, i as int);
            }
            return Some(i);
        }
        proof {
            assert(spec_entries(td@)[i as int].0 == td@[i as int].0@);
        }
        i += 1;
    }
    proof {
        lemma_find_spec(spec_entries(td@), key@);
        if spec_find(spec_entries(td@), key@) is Some {
            let i = spec_find(spec_entries(td@), key@).unwrap();
            assert(spec_entries(td@)[i].0 != key@);
        }
    }
    None
}

impl Solver {
    /// The engine's invariant: its store is a mapping — the fingerprint keys
    /// are pairwise distinct — and every key is a non-empty binary string.
    pub open spec fn wf(&self) -> bool {
        store_distinct(self@) && store_keys_valid(self@)
    }

    /// Builds the engine over the given corpus entries: fingerprints keep
    /// their first-occurrence order, and duplicate fingerprints collapse to
    /// one entry, the last one's character winning. Well-formed keys carry
    /// over: entries that all hold non-empty binary fingerprints load into a
    /// store that does too.
    pub fn from_entries(entries: Vec<(String, char)>) -> (s: Solver)
        ensures
            s@ == spec_load(spec_entries(entries@)),
            store_distinct(s@),
            store_keys_valid(spec_entries(entries@)) ==> s.wf(),
    {
        let n = entries.len();
        let mut td: Vec<(String, char)> = Vec::new();
        let mut j: usize = 0;
        proof {
            assert(spec_entries(entries@).take(0) =~= Seq::<(Seq<char>, char)>::empty());
            assert(spec_entries(td@) =~= Seq::<(Seq<char>, char)>::empty());
        }
        while j < n
            invariant
                n == entries@.len(),
                j <= n,
                spec_entries(td@) == spec_load(spec_entries(entries@).take(j as int)),
                store_distinct(spec_entries(td@)),
            decreases n - j,
        {
            let key = entries[j].0.clone();
            let value = entries[j].1;
            let ghost prev = spec_entries(td@);
            let ghost step = spec_entries(entries@).take(j as int + 1);
            proof {
                assert(step.drop_last() =~= spec_entries(entries@).take(j as int));
                assert(step.last() == spec_entries(entries@)[j as int]);
                assert(spec_entries(entries@)[j as int] == (entries@[j as int].0@, entries@[
                    j as int].1));
                assert(key@ == entries@[j as int].0@);
                lemma_find_spec(prev, key@);
            }
            match find_key(&td, &key) {
                Some(i) => {
                    let ghost before = td@;
                    td.remove(i);
                    td.insert(i, (key, value));
                    proof {
                        let ghost e = (entries@[j as int].0@, entries@[j as int].1);
                        assert(td@ =~= before.update(i as int, (key, value)));
                        assert(spec_entries(td@) =~= prev.update(i as int, e));
                        assert(spec_entries(td@) == spec_load(step));
                        assert forall|a: int, b: int|
                            0 <= a < b < spec_entries(td@).len() implies (#[trigger] spec_entries(
                            td@,
                        )[a]).0 != (#[trigger] spec_entries(td@)[b]).0 by {
                            assert(prev[a].0 != prev[b].0);
                            assert(prev[i as int].0 == e.0);
                        }
                    }
                },
                None => {
                    td.push((key, value));
                    proof {
                        let ghost e = (entries@[j as int].0@, entries@[j as int].1);
                        assert(spec_entries(td@) =~= prev.push(e));
                        assert(spec_entries(td@) == spec_load(step));
                        assert forall|a: int, b: int|
                            0 <= a < b < spec_entries(td@).len() implies (#[trigger] spec_entries(
                            td@,
                        )[a]).0 != (#[trigger] spec_entries(td@)[b]).0 by {
                            if b < prev.len() {
                                assert(prev[a].0 != prev[b].0);
                            } else {
                                assert(prev[a].0 != e.0);
                            }
                        }
                    }
                },
            }
            j += 1;
        }
        proof {
            assert(spec_entries(entries@).take(n as int) =~= spec_entries(entries@));
        }
        let s = Solver { training_data: td };
        proof {
            assert forall|a: int, b: int| 0 <= a < b < s@.len() implies s@[a].0 != s@[b].0 by {
                assert(spec_entries(s.training_data@)[a].0 != spec_entries(s.training_data@)[b].0);
            }
            if store_keys_valid(spec_entries(entries@)) {
                lemma_load_elements(spec_entries(entries@));
                assert forall|i: int| 0 <= i < s@.len() implies fp_valid((#[trigger] s@[i]).0) by {
                    let ghost w = choose|w: int|
                        0 <= w < spec_entries(entries@).len() && s@[i] == spec_entries(entries@)[w];
                    assert(fp_valid(spec_entries(entries@)[w].0));
                }
            }
        }
        s
    }

    /// Builds the engine from the serialized reference corpus. Construction
    /// succeeds exactly when the bytes decode as a fingerprint-to-character
    /// mapping whose keys are all non-empty binary strings, and the store
    /// then holds exactly the decoded mapping's pairs; anything else is
    /// rejected with a `LoadError`, and no engine is produced.
    pub fn new(data: &[u8]) -> (r: Result<Solver, LoadError>)
        ensures
            r is Ok <==> (corpus_of(data@) is Some && corpus_keys_valid(
                corpus_of(data@).unwrap(),
            )),
            r is Ok ==> r.unwrap().wf(),
            r is Ok ==> {
                let m = corpus_of(data@).unwrap();
                let st = r.unwrap()@;
                &&& forall|i: int|
                    0 <= i < st.len() ==> m.contains_pair((#[trigger] st[i]).0, st[i].1)
                &&& forall|k: Seq<char>|
                    m.dom().contains(k) ==> exists|i: int|
                        0 <= i < st.len() && (#[trigger] st[i]).0 == k
            },
    {
        match decode_corpus(data) {
            Ok(entries) => {
                let ghost m = corpus_of(data@).unwrap();
                let ghost ev = spec_entries(entries@);
                proof {
                    assert forall|i: int, j: int| 0 <= i < j < ev.len() implies ev[i].0 != ev[j].0
                    by {
                        assert(ev[i].0 == entries@[i].0@);
                        assert(ev[j].0 == entries@[j].0@);
                    }
                }
                let keys_ok = entries_keys_valid(&entries);
                proof {
                    assert forall|i: int|
                        0 <= i < ev.len() implies m.contains_pair(
                        (#[trigger] ev[i]).0,
                        ev[i].1,
                    ) by {
                        assert(ev[i] == (entries@[i].0@, entries@[i].1));
                    }
                    if store_keys_valid(ev) {
                        assert forall|k: Seq<char>| m.dom().contains(k) implies fp_valid(k) by {
                            let ghost w = choose|w: int|
                                0 <= w < entries@.len() && entries@[w].0@ == k;
                            assert(fp_valid(ev[w].0));
                        }
                    } else {
                        let ghost b = choose|b: int| 0 <= b < ev.len() && !fp_valid(ev[b].0);
                        assert(m.dom().contains(ev[b].0));
                        assert(!corpus_keys_valid(m));
                    }
                }
                if !keys_ok {
                    return Err(LoadError);
                }
                let s = Solver::from_entries(entries);
                proof {
                    lemma_load_distinct_identity(ev);
                    assert forall|k: Seq<char>|
                        m.dom().contains(k) implies exists|i: int|
                        0 <= i < s@.len() && (#[trigger] s@[i]).0 == k by {
                        let ghost w = choose|w: int|
                            0 <= w < entries@.len() && entries@[w].0@ == k;
                        assert(s@[w].0 == k);
                    }
                }
                Ok(s)
            },
            Err(_) => Err(LoadError),
        }
    }

    /// Exact lookup: the character of the first entry whose fingerprint
    /// equals the given one, with no normalization of length or content.
    pub fn lookup_exact(&self, fingerprint: &str) -> (r: Option<char>)
        ensures
            r == spec_lookup(self@, fingerprint@),
    {
        let key = String::from_str(fingerprint);
        let n = self.training_data.len();
        let mut i: usize = 0;
        while i < n
            invariant
                n == self.training_data@.len(),
                key@ == fingerprint@,
                i <= n,
                forall|k: int| 0 <= k < i ==> (#[trigger] self@[k]).0 != fingerprint@,
            decreases n - i,
        {
            if self.training_data[i].0 == key {
                let c = self.training_data[i].1;
                proof {
                    assert(self@[i as int].0 == fingerprint@);
                    lemma_lookup_hit(self@, fingerprint@, i as int);
                }
                return Some(c);
            }
            proof {
                assert(self@[i as int].0 == self.training_data@[i as int].0@);
            }
            i += 1;
        }
        proof {
            lemma_lookup_miss(self@, fingerprint@);
        }
        None
    }

    /// Similarity fallback: scans every entry, scoring it by the positional
    /// match count against the given fingerprint, and returns the character
    /// of the first entry with the maximal score. A non-empty store always
    /// yields a stored character; only an empty store yields the sentinel
    /// blank.
    pub fn most_similar_letter(&self, letter: &str) -> (r: char)
        ensures
            r == spec_most_similar(self@, letter@),
    {
        let n = self.training_data.len();
        if n == 0 {
            return ' ';
        }
        let mut max_letter: char = self.training_data[0].1;
        let mut max_score: usize = match_count(letter, self.training_data[0].0.as_str());
        let mut i: usize = 1;
        proof {
            assert(self@[0] == (self.training_data@[0].0@, self.training_data@[0].1));
            assert(self@.drop_first() =~= self@.skip(1));
        }
        while i < n
            invariant
                n == self.training_data@.len(),
                i <= n,
                spec_best_from(self@.skip(i as int), letter@, max_letter, max_score as nat)
                    == spec_most_similar(self@, letter@),
            decreases n - i,
        {
            let score = match_count(letter, self.training_data[i].0.as_str());
            proof {
                assert(self@[i as int] == (self.training_data@[i as int].0@, self.training_data@[
                    i as int].1));
                assert(self@.skip(i as int)[0] == self@[i as int]);
                assert(self@.skip(i as int).drop_first() =~= self@.skip(i as int + 1));
            }
            if score > max_score {
                max_score = score;
                max_letter = self.training_data[i].1;
            }
            i += 1;
        }
        proof {
            assert(self@.skip(n as int) =~= Seq::<(Seq<char>, char)>::empty());
        }
        max_letter
    }
}

/// The glyphs the engine classifies: the segmented crops, except that
/// exactly seven crops collapse to six — the seventh merges with the first,
/// the seventh on the left, and the merged glyph takes the last slot.
pub open spec fn spec_glyphs(img: ImgV) -> Seq<ImgV> {
    let crops = spec_letters(img);
    if crops.len() == 7 {
        crops.subrange(1, 6).push(spec_merge(crops[6], crops[0]))
    } else {
        crops
    }
}

/// The resolved text of an image: one character per glyph, in left-to-right
/// order, each the classification of the glyph's fingerprint, lowercased.
pub open spec fn spec_resolve(store: StoreV, img: ImgV) -> Seq<char> {
    spec_glyphs(img).map_values(|g: ImgV| spec_lower(spec_classify(store, spec_fingerprint(g))))
}

/// With exactly six regions no merge applies: the glyphs are the six crops
/// unchanged, and the resolved text has exactly six characters.
pub proof fn lemma_six_regions_no_merge(store: StoreV, img: ImgV)
    requires
        spec_regions(img).len() == 6,
    ensures
        spec_glyphs(img) == spec_letters(img),
        spec_resolve(store, img).len() == 6,
{
}

/// With exactly seven regions the merge reduces the count to six: the
/// seventh crop's pixels stand before the first crop's in one merged glyph
/// at the last slot, its width the sum of the two widths and its height the
/// larger of the two; the five other glyphs are the middle crops unchanged.
pub proof fn lemma_seven_region_merge(store: StoreV, img: ImgV)
    requires
        spec_regions(img).len() == 7,
    ensures
        spec_glyphs(img).len() == 6,
        spec_resolve(store, img).len() == 6,
        spec_glyphs(img)[5] == spec_merge(spec_letters(img)[6], spec_letters(img)[0]),
        spec_glyphs(img)[5].width == spec_letters(img)[6].width + spec_letters(img)[0].width,
        spec_glyphs(img)[5].height == nat_max(
            spec_letters(img)[6].height,
            spec_letters(img)[0].height,
        ),
        forall|i: int| 0 <= i < 5 ==> spec_glyphs(img)[i] == spec_letters(img)[i + 1],
{
    let crops = spec_letters(img);
    assert(spec_glyphs(img) == crops.subrange(1, 6).push(spec_merge(crops[6], crops[0])));
    assert(spec_glyphs(img)[5] == spec_merge(crops[6], crops[0]));
}

/// The exact lookup only ever returns a stored entry's character.
proof fn lemma_lookup_in_store(store: StoreV, fp: Seq<char>)
    ensures
        spec_lookup(store, fp) is Some ==> exists|j: int|
            0 <= j < store.len() && (#[trigger] store[j]).1 == spec_lookup(store, fp).unwrap(),
    decreases store.len(),
{
    if store.len() > 0 {
        if store[0].0 == fp {
            assert(store[0].1 == spec_lookup(store, fp).unwrap());
        } else {
            lemma_lookup_in_store(store.drop_first(), fp);
            if spec_lookup(store, fp) is Some {
                let j = choose|j: int|
                    0 <= j < store.drop_first().len() && store.drop_first()[j].1 == spec_lookup(
                        store.drop_first(),
                        fp,
                    ).unwrap();
                assert(store[j + 1].1 == spec_lookup(store, fp).unwrap());
            }
        }
    }
}

/// The similarity scan only ever returns the running best or a stored
/// entry's character.
proof fn lemma_best_from_in(store: StoreV, fp: Seq<char>, cur: char, cur_score: nat)
    ensures
        spec_best_from(store, fp, cur, cur_score) == cur || exists|j: int|
            0 <= j < store.len() && (#[trigger] store[j]).1 == spec_best_from(
                store,
                fp,
                cur,
                cur_score,
            ),
    decreases store.len(),
{
    if store.len() > 0 {
        let r = spec_best_from(store, fp, cur, cur_score);
        if spec_match_count(fp, store[0].0) > cur_score {
            lemma_best_from_in(store.drop_first(), fp, store[0].1, spec_match_count(fp, store[0].0));
            if r == store[0].1 {
                assert(store[0].1 == r);
            } else {
                let j = choose|j: int|
                    0 <= j < store.drop_first().len() && store.drop_first()[j].1 == r;
                assert(store[j + 1].1 == r);
            }
        } else {
            lemma_best_from_in(store.drop_first(), fp, cur, cur_score);
            if r != cur {
                let j = choose|j: int|
                    0 <= j < store.drop_first().len() && store.drop_first()[j].1 == r;
                assert(store[j + 1].1 == r);
            }
        }
    }
}

/// For a non-empty store the similarity fallback returns a stored entry's
/// character, never the sentinel blank.
pub proof fn lemma_most_similar_in_store(store: StoreV, fp: Seq<char>)
    requires
        store.len() > 0,
    ensures
        exists|j: int|
            0 <= j < store.len() && (#[trigger] store[j]).1 == spec_most_similar(store, fp),
{
    let r = spec_most_similar(store, fp);
    lemma_best_from_in(store.drop_first(), fp, store[0].1, spec_match_count(fp, store[0].0));
    if r == store[0].1 {
        assert(store[0].1 == r);
    } else {
        let j = choose|j: int| 0 <= j < store.drop_first().len() && store.drop_first()[j].1 == r;
        assert(store[j + 1].1 == r);
    }
}

/// Classification of any fingerprint against a non-empty store yields a
/// stored entry's character: there is no unknown-character outcome.
pub proof fn lemma_classify_in_store(store: StoreV, fp: Seq<char>)
    requires
        store.len() > 0,
    ensures
        exists|j: int| 0 <= j < store.len() && (#[trigger] store[j]).1 == spec_classify(store, fp),
{
    lemma_lookup_in_store(store, fp);
    if spec_lookup(store, fp) is None {
        lemma_most_similar_in_store(store, fp);
    }
}

/// `c` is the lowercase fold of some stored entry's character.
pub open spec fn char_from_store(store: StoreV, c: char) -> bool {
    exists|j: int| 0 <= j < store.len() && spec_lower((#[trigger] store[j]).1) == c
}

/// Every character of the resolved text of any image, against a non-empty
/// store, is the lowercase fold of some stored entry's character.
pub proof fn lemma_resolve_chars_from_store(store: StoreV, img: ImgV)
    requires
        store.len() > 0,
    ensures
        forall|i: int|
            0 <= i < spec_resolve(store, img).len() ==> char_from_store(
                store,
                #[trigger] spec_resolve(store, img)[i],
            ),
{
    assert forall|i: int|
        0 <= i < spec_resolve(store, img).len() implies char_from_store(
        store,
        #[trigger] spec_resolve(store, img)[i],
    ) by {
        let g = spec_glyphs(img)[i];
        assert(spec_resolve(store, img)[i] == spec_lower(
            spec_classify(store, spec_fingerprint(g)),
        ));
        lemma_classify_in_store(store, spec_fingerprint(g));
        let j = choose|j: int|
            0 <= j < store.len() && (#[trigger] store[j]).1 == spec_classify(
                store,
                spec_fingerprint(g),
            );
        assert(0 <= j < store.len() && spec_lower(store[j].1) == spec_resolve(store, img)[i]);
    }
}

/// The resolved text is case-normalized: folding its characters again
/// changes nothing.
pub proof fn lemma_resolve_lower_fixed(store: StoreV, img: ImgV)
    ensures
        forall|i: int|
            0 <= i < spec_resolve(store, img).len() ==> spec_lower(
                #[trigger] spec_resolve(store, img)[i],
            ) == spec_resolve(store, img)[i],
{
    assert forall|i: int|
        0 <= i < spec_resolve(store, img).len() implies spec_lower(
        #[trigger] spec_resolve(store, img)[i],
    ) == spec_resolve(store, img)[i] by {
        let g = spec_glyphs(img)[i];
        assert(spec_resolve(store, img)[i] == spec_lower(
            spec_classify(store, spec_fingerprint(g)),
        ));
        crate::text::lemma_lower_idempotent(spec_classify(store, spec_fingerprint(g)));
    }
}

/// A uniformly inkless image resolves to the empty text, not an error.
pub proof fn lemma_no_ink_empty_text(store: StoreV, img: ImgV)
    requires
        forall|x: int, y: int|
            0 <= x < img.width && 0 <= y < img.height ==> #[trigger] img.pix(x, y) > INK_MAX,
    ensures
        spec_resolve(store, img) == Seq::<char>::empty(),
{
    lemma_no_ink_no_regions(img);
    assert(spec_letters(img) =~= Seq::<ImgV>::empty());
    assert(spec_resolve(store, img) =~= Seq::<char>::empty());
}

impl Solver {
    /// Resolves an already grayscale image: segmentation, the seven-region
    /// merge where it applies, per-glyph classification, and lowercasing.
    pub fn resolve_gray(&self, img: &GrayImg) -> (r: String)
        requires
            img@.wf(),
        ensures
            r@ == spec_resolve(self@, img@),
    {
        let ghost crops = spec_letters(img@);
        let mut letters = extract_letters(img);
        if letters.len() == 7 {
            let wid = img.width();
            let n = img.pixel_count();
            proof {
                lemma_regions_ordered(img@);
                let regs = spec_regions(img@);
                assert(letters@.map_values(|g: GrayImg| g@).len() == 7);
                assert(crops.len() == 7);
                assert(regs.len() == 7);
                assert(crops[0] == (crate::raster::spec_crop(img@, regs[0].0, regs[0].1)));
                assert(crops[6] == (crate::raster::spec_crop(img@, regs[6].0, regs[6].1)));
                assert(regs[0].1 <= regs[6].0);
                assert(crops[6].width + crops[0].width <= wid);
                assert(crops[0].height == img@.height && crops[6].height == img@.height);
                assert((crops[6].width + crops[0].width) * nat_max(crops[6].height, crops[0].height)
                    <= img@.width * img@.height) by (nonlinear_arith)
                    requires
                        crops[6].width + crops[0].width <= img@.width,
                        nat_max(crops[6].height, crops[0].height) == img@.height,
                ;
            }
            let ghost orig = letters@;
            let first = letters.remove(0);
            let last = letters.pop().unwrap();
            proof {
                assert(last@ == orig.map_values(|g: GrayImg| g@)[6]);
                assert(first@ == orig.map_values(|g: GrayImg| g@)[0]);
            }
            let merged = merge_images(&last, &first);
            letters.push(merged);
            proof {
                assert forall|k: int| 0 <= k < 5 implies (#[trigger] letters@[k])@ == crops[k + 1]
                by {
                    assert(letters@[k] == orig[k + 1]);
                    assert(orig.map_values(|g: GrayImg| g@)[k + 1] == crops[k + 1]);
                }
                assert(letters@.map_values(|g: GrayImg| g@) =~= spec_glyphs(img@));
            }
        }
        let ghost glyphs = spec_glyphs(img@);
        proof {
            assert(letters@.map_values(|g: GrayImg| g@) == glyphs);
        }
        let mut chars: Vec<char> = Vec::new();
        let m = letters.len();
        let mut i: usize = 0;
        while i < m
            invariant
                m == letters@.len(),
                letters@.map_values(|g: GrayImg| g@) == glyphs,
                glyphs == spec_glyphs(img@),
                i <= m,
                chars@.len() == i,
                forall|k: int| 0 <= k < i ==> chars@[k] == spec_resolve(self@, img@)[k],
            decreases m - i,
        {
            let fp = fingerprint_image(&letters[i]);
            let c = match self.lookup_exact(fp.as_str()) {
                Some(c) => c,
                None => self.most_similar_letter(fp.as_str()),
            };
            chars.push(to_lower(c));
            proof {
                assert(letters@.map_values(|g: GrayImg| g@)[i as int] == glyphs[i as int]);
                assert(letters@[i as int]@ == glyphs[i as int]);
                assert(spec_resolve(self@, img@)[i as int] == spec_lower(
                    spec_classify(self@, spec_fingerprint(glyphs[i as int])),
                ));
            }
            i += 1;
        }
        proof {
            assert(chars@ =~= spec_resolve(self@, img@));
        }
        string_from_chars(chars)
    }

    /// Resolves a captcha image: converts it to grayscale through the raster
    /// library, then resolves the grayscale form. The result is exactly the
    /// resolved text of the image's grayscale grid, so two calls on the same
    /// image agree.
    pub fn resolve_image(&self, image: &image::DynamicImage) -> (r: String)
        ensures
            r@ == spec_resolve(self@, spec_grayscale(*image)),
    {
        let gray = to_gray(image);
        self.resolve_gray(&gray)
    }
}

} // verus!
