use vstd::prelude::*;
use vstd::utf8::{decode_utf8, encode_utf8};

verus! {

/// Identifiers and byte weights as plain values.
pub open spec fn weighted_view(v: Seq<(String, u64)>) -> Seq<(Seq<char>, u64)> {
    v.map_values(|p: (String, u64)| (p.0@, p.1))
}

/// The summed weight of every pair in `s` whose identifier is `k`.
pub open spec fn bytes_of_language(s: Seq<(Seq<char>, u64)>, k: Seq<char>) -> nat
    decreases s.len(),
{
    if s.len() == 0 {
        0
    } else {
        bytes_of_language(s.drop_last(), k) + if s.last().0 == k {
            s.last().1 as nat
        } else {
            0nat
        }
    }
}

/// The summed weight of every pair in `s`.
pub open spec fn total_bytes_of(s: Seq<(Seq<char>, u64)>) -> nat
    decreases s.len(),
{
    if s.len() == 0 {
        0
    } else {
        total_bytes_of(s.drop_last()) + s.last().1 as nat
    }
}

/// Whether some pair of `s` carries the identifier `k`.
pub open spec fn mentions(s: Seq<(Seq<char>, u64)>, k: Seq<char>) -> bool {
    exists|i: int| 0 <= i < s.len() && (#[trigger] s[i]).0 == k
}

/// The tally that folding `s` produces: each identifier that occurs maps to
/// the sum of its weights.
pub open spec fn tally_of(s: Seq<(Seq<char>, u64)>) -> Map<Seq<char>, nat> {
    Map::new(|k: Seq<char>| mentions(s, k), |k: Seq<char>| bytes_of_language(s, k))
}

proof fn lemma_total_of_prefix(s: Seq<(Seq<char>, u64)>, i: int)
    requires
        0 <= i <= s.len(),
    ensures
        total_bytes_of(s.take(i)) <= total_bytes_of(s),
    decreases s.len(),
{
    if i < s.len() {
        assert(s.drop_last().take(i) =~= s.take(i));
        lemma_total_of_prefix(s.drop_last(), i);
    } else {
        assert(s.take(i) =~= s);
    }
}

proof fn lemma_weight_within_total(s: Seq<(Seq<char>, u64)>, j: int)
    requires
        0 <= j < s.len(),
    ensures
        s[j].1 <= total_bytes_of(s),
    decreases s.len(),
{
    if j < s.len() - 1 {
        lemma_weight_within_total(s.drop_last(), j);
    }
}

proof fn lemma_total_after_update(s: Seq<(Seq<char>, u64)>, j: int, p: (Seq<char>, u64))
    requires
        0 <= j < s.len(),
    ensures
        total_bytes_of(s.update(j, p)) + s[j].1 == total_bytes_of(s) + p.1,
    decreases s.len(),
{
    if j < s.len() - 1 {
        assert(s.update(j, p).drop_last() =~= s.drop_last().update(j, p));
        lemma_total_after_update(s.drop_last(), j, p);
    } else {
        assert(s.update(j, p).drop_last() =~= s.drop_last());
    }
}

proof fn lemma_absent_weighs_nothing(s: Seq<(Seq<char>, u64)>, k: Seq<char>)
    requires
        !mentions(s, k),
    ensures
        bytes_of_language(s, k) == 0,
    decreases s.len(),
{
    if s.len() > 0 {
        assert(s.last() == s[s.len() - 1]);
        assert forall|i: int| 0 <= i < s.drop_last().len() implies (#[trigger] s.drop_last()[i]).0 != k by {
            assert(s.drop_last()[i] == s[i]);
        }
        lemma_absent_weighs_nothing(s.drop_last(), k);
    }
}

/// Per-language byte totals. Each identifier occurs once.
pub struct LanguageTally {
    entries: Vec<(String, u64)>,
}

impl LanguageTally {
    #[verifier::type_invariant]
    spec fn well_formed(self) -> bool {
        &&& forall|i: int, j: int|
            0 <= i < j < self.entries.len() ==> self.entries[i].0@ != self.entries[j].0@
        &&& total_bytes_of(weighted_view(self.entries@)) <= u64::MAX
    }

    /// The sum of all byte totals.
    pub closed spec fn total(&self) -> nat {
        total_bytes_of(weighted_view(self.entries@))
    }
}

impl View for LanguageTally {
    type V = Map<Seq<char>, nat>;

    closed spec fn view(&self) -> Map<Seq<char>, nat> {
        Map::new(
            |k: Seq<char>| exists|i: int| 0 <= i < self.entries.len() && self.entries[i].0@ == k,
            |k: Seq<char>|
                self.entries[choose|i: int|
                    0 <= i < self.entries.len() && self.entries[i].0@ == k].1 as nat,
        )
    }
}

impl LanguageTally {
    /// The total of a language, or `None` when no file was classified as it.
    pub fn get(&self, identifier: &str) -> (r: Option<u64>)
        ensures
            r matches Some(v) ==> self@.contains_key(identifier@) && v == self@[identifier@],
            r is None ==> !self@.contains_key(identifier@),
    {
        proof {
            use_type_invariant(self);
        }
        let wanted = identifier.to_owned();
        match position_of(&self.entries, &wanted) {
            Some(j) => {
                proof {
                    let c = choose|c: int|
                        0 <= c < self.entries.len() && self.entries[c].0@ == identifier@;
                    assert(c == j);
                }
                Some(self.entries[j].1)
            },
            None => None,
        }
    }

    /// How many languages the tally holds.
    pub fn len(&self) -> (r: usize)
        ensures
            r == self@.dom().len(),
    {
        proof {
            use_type_invariant(self);
            let keys = self.entries@.map_values(|p: (String, u64)| p.0@);
            assert(keys.no_duplicates()) by {
                assert forall|a: int, b: int| 0 <= a < keys.len() && 0 <= b < keys.len() && a != b
                    implies keys[a] != keys[b] by {
                    if a < b {
                        assert(self.entries[a].0@ != self.entries[b].0@);
                    } else {
                        assert(self.entries[b].0@ != self.entries[a].0@);
                    }
                }
            }
            keys.unique_seq_to_set();
            assert(keys.to_set() =~= self@.dom()) by {
                assert forall|k: Seq<char>| keys.to_set().contains(k) <==> self@.dom().contains(k) by {
                    if keys.to_set().contains(k) {
                        let i = choose|i: int| 0 <= i < keys.len() && keys[i] == k;
                        assert(self.entries[i].0@ == k);
                    }
                    if self@.dom().contains(k) {
                        let i = choose|i: int| 0 <= i < self.entries.len() && self.entries[i].0@ == k;
                        assert(keys[i] == k);
                    }
                }
            }
        }
        self.entries.len()
    }

    /// The sum of all totals: the bytes of every classified file.
    pub fn total_bytes(&self) -> (r: u64)
        ensures
            r == self.total(),
    {
        proof {
            use_type_invariant(self);
        }
        let mut sum: u64 = 0;
        let mut i: usize = 0;
        while i < self.entries.len()
            invariant
                i <= self.entries.len(),
                total_bytes_of(weighted_view(self.entries@)) <= u64::MAX,
                sum == total_bytes_of(weighted_view(self.entries@).take(i as int)),
            decreases self.entries.len() - i,
        {
            proof {
                let s = weighted_view(self.entries@);
                assert(s.take(i + 1).drop_last() =~= s.take(i as int));
                lemma_total_of_prefix(s, i + 1);
            }
            sum = sum + self.entries[i].1;
            i += 1;
        }
        proof {
            assert(weighted_view(self.entries@).take(i as int) =~= weighted_view(self.entries@));
        }
        sum
    }
}

fn position_of(entries: &Vec<(String, u64)>, name: &String) -> (r: Option<usize>)
    ensures
        r matches Some(j) ==> j < entries.len() && entries[j as int].0@ == name@,
        r is None ==> forall|j: int| 0 <= j < entries.len() ==> entries[j].0@ != name@,
{
    let mut j: usize = 0;
    while j < entries.len()
        invariant
            j <= entries.len(),
            forall|i: int| 0 <= i < j ==> entries[i].0@ != name@,
        decreases entries.len() - j,
    {
        if entries[j].0 == *name {
            return Some(j);
        }
        j += 1;
    }
    None
}

/// Some entry of `e` carries the identifier `k`.
spec fn key_listed(e: Seq<(String, u64)>, k: Seq<char>) -> bool {
    exists|j: int| 0 <= j < e.len() && (#[trigger] e[j]).0@ == k
}

proof fn lemma_mentions_push(s: Seq<(Seq<char>, u64)>, p: (Seq<char>, u64), k: Seq<char>)
    ensures
        mentions(s.push(p), k) <==> mentions(s, k) || p.0 == k,
{
    let t = s.push(p);
    if mentions(t, k) && !mentions(s, k) {
        let w = choose|w: int| 0 <= w < t.len() && (#[trigger] t[w]).0 == k;
        if w < s.len() {
            assert(s[w] == t[w]);
        }
    }
    if mentions(s, k) {
        let w = choose|w: int| 0 <= w < s.len() && (#[trigger] s[w]).0 == k;
        assert(t[w] == s[w]);
    }
    if p.0 == k {
        assert(t[s.len() as int] == p);
    }
}

/// Folds (identifier, byte weight) pairs into per-identifier totals.
pub fn classifications_to_map(classifications: &Vec<(String, u64)>) -> (r: LanguageTally)
    requires
        total_bytes_of(weighted_view(classifications@)) <= u64::MAX,
    ensures
        r@ == tally_of(weighted_view(classifications@)),
        r.total() == total_bytes_of(weighted_view(classifications@)),
{
    let ghost s = weighted_view(classifications@);
    let mut entries: Vec<(String, u64)> = Vec::new();
    let mut i: usize = 0;
    while i < classifications.len()
        invariant
            i <= classifications.len(),
            s == weighted_view(classifications@),
            total_bytes_of(s) <= u64::MAX,
            forall|a: int, b: int| 0 <= a < b < entries.len() ==> entries[a].0@ != entries[b].0@,
            forall|j: int|
                0 <= j < entries.len() ==> #[trigger] entries[j].1 == bytes_of_language(
                    s.take(i as int),
                    entries[j].0@,
                ),
            forall|k: Seq<char>| mentions(s.take(i as int), k) <==> key_listed(entries@, k),
            total_bytes_of(weighted_view(entries@)) == total_bytes_of(s.take(i as int)),
        decreases classifications.len() - i,
    {
        let name = &classifications[i].0;
        let size = classifications[i].1;
        let ghost before = s.take(i as int);
        let ghost after = s.take(i + 1);
        let ghost old_entries = entries@;
        proof {
            assert(after =~= before.push((name@, size)));
            assert(after.drop_last() =~= before);
            lemma_total_of_prefix(s, i + 1);
        }
        match position_of(&entries, name) {
            Some(j) => {
                proof {
                    lemma_weight_within_total(weighted_view(entries@), j as int);
                }
                let updated = (entries[j].0.clone(), entries[j].1 + size);
                entries.set(j, updated);
                proof {
                    let p = (name@, (old_entries[j as int].1 + size) as u64);
                    assert(weighted_view(entries@) =~= weighted_view(old_entries).update(j as int, p));
                    lemma_total_after_update(weighted_view(old_entries), j as int, p);
                    assert forall|j2: int| 0 <= j2 < entries.len() implies #[trigger] entries[j2].1
                        == bytes_of_language(after, entries[j2].0@) by {
                        assert(old_entries[j2].1 == bytes_of_language(before, old_entries[j2].0@));
                        if j2 != j {
                            assert(old_entries[j2].0@ != old_entries[j as int].0@);
                        }
                    }
                    assert forall|k: Seq<char>| mentions(after, k) <==> key_listed(entries@, k) by {
                        lemma_mentions_push(before, (name@, size), k);
                        if key_listed(old_entries, k) {
                            let c = choose|c: int| 0 <= c < old_entries.len() && (#[trigger] old_entries[c]).0@ == k;
                            assert(entries@[c].0@ == k);
                        }
                        if key_listed(entries@, k) {
                            let c = choose|c: int| 0 <= c < entries.len() && (#[trigger] entries@[c]).0@ == k;
                            assert(old_entries[c].0@ == k);
                        }
                    }
                }
            },
            None => {
                entries.push((name.clone(), size));
                proof {
                    assert(weighted_view(entries@) =~= weighted_view(old_entries).push((name@, size)));
                    assert(weighted_view(entries@).drop_last() =~= weighted_view(old_entries));
                    assert forall|j2: int| 0 <= j2 < entries.len() implies #[trigger] entries[j2].1
                        == bytes_of_language(after, entries[j2].0@) by {
                        if j2 < old_entries.len() {
                            assert(old_entries[j2].1 == bytes_of_language(before, old_entries[j2].0@));
                            assert(old_entries[j2].0@ != name@);
                        } else {
                            assert(mentions(before, name@) <==> key_listed(old_entries, name@));
                            assert(!mentions(before, name@));
                            lemma_absent_weighs_nothing(before, name@);
                        }
                    }
                    assert forall|k: Seq<char>| mentions(after, k) <==> key_listed(entries@, k) by {
                        lemma_mentions_push(before, (name@, size), k);
                        if key_listed(old_entries, k) {
                            let c = choose|c: int| 0 <= c < old_entries.len() && (#[trigger] old_entries[c]).0@ == k;
                            assert(entries@[c].0@ == k);
                        }
                        if key_listed(entries@, k) && k != name@ {
                            let c = choose|c: int| 0 <= c < entries.len() && (#[trigger] entries@[c]).0@ == k;
                            assert(old_entries[c].0@ == k);
                        }
                        if k == name@ {
                            assert(entries@[old_entries.len() as int].0@ == k);
                        }
                    }
                }
            },
        }
        i += 1;
    }
    proof {
        assert(s.take(i as int) =~= s);
    }
    let r = LanguageTally { entries };
    proof {
        assert forall|k: Seq<char>| r@.contains_key(k) <==> mentions(s, k) by {
            assert(mentions(s, k) <==> key_listed(r.entries@, k));
            if key_listed(r.entries@, k) {
                let c = choose|c: int| 0 <= c < r.entries.len() && (#[trigger] r.entries@[c]).0@ == k;
                assert(r.entries[c].0@ == k);
            }
        }
        assert(r@ =~= tally_of(s));
    }
    r
}

/// `a` sorts before `b` byte-wise, as witnessed at position `i`: the two agree
/// before `i`, and at `i` either `a` has ended or holds the smaller byte.
pub open spec fn bytes_lt_at(a: Seq<u8>, b: Seq<u8>, i: int) -> bool {
    &&& 0 <= i <= a.len()
    &&& i < b.len()
    &&& forall|j: int| 0 <= j < i ==> a[j] == b[j]
    &&& (i == a.len() || a[i] < b[i])
}

/// Strict lexicographic order on byte strings.
pub open spec fn bytes_lt(a: Seq<u8>, b: Seq<u8>) -> bool {
    exists|i: int| bytes_lt_at(a, b, i)
}

/// The order that breaks ties between identifiers: byte-wise on their UTF-8
/// encodings, which is how `str` values compare.
pub open spec fn identifier_lt(a: Seq<char>, b: Seq<char>) -> bool {
    bytes_lt(encode_utf8(a), encode_utf8(b))
}

/// `k` is the dominant language of the tally `m`: no identifier has a larger
/// total, and every other identifier with the same total sorts after `k`.
pub open spec fn is_dominant(m: Map<Seq<char>, nat>, k: Seq<char>) -> bool {
    &&& m.contains_key(k)
    &&& forall|o: Seq<char>|
        #[trigger] m.contains_key(o) && o != k ==> m[o] < m[k] || (m[o] == m[k] && identifier_lt(
            k,
            o,
        ))
}

proof fn lemma_bytes_lt_asymmetric(a: Seq<u8>, b: Seq<u8>)
    requires
        bytes_lt(a, b),
    ensures
        !bytes_lt(b, a),
{
    let i = choose|i: int| bytes_lt_at(a, b, i);
    if bytes_lt(b, a) {
        let k = choose|k: int| bytes_lt_at(b, a, k);
        if i < k {
            assert(b[i] == a[i]);
        } else if k < i {
            assert(a[k] == b[k]);
        }
    }
}

proof fn lemma_bytes_lt_transitive(a: Seq<u8>, b: Seq<u8>, c: Seq<u8>)
    requires
        bytes_lt(a, b),
        bytes_lt(b, c),
    ensures
        bytes_lt(a, c),
{
    let i = choose|i: int| bytes_lt_at(a, b, i);
    let k = choose|k: int| bytes_lt_at(b, c, k);
    if i <= k {
        assert forall|j: int| 0 <= j < i implies a[j] == c[j] by {
            assert(a[j] == b[j]);
            assert(b[j] == c[j]);
        }
        if i < a.len() && i == k {
            assert(b[i] < c[i]);
        }
        if i < a.len() && i < k {
            assert(b[i] == c[i]);
        }
        assert(bytes_lt_at(a, c, i));
    } else {
        assert forall|j: int| 0 <= j < k implies a[j] == c[j] by {
            assert(a[j] == b[j]);
            assert(b[j] == c[j]);
        }
        assert(a[k] == b[k]);
        assert(bytes_lt_at(a, c, k));
    }
}

proof fn lemma_bytes_lt_total_from(a: Seq<u8>, b: Seq<u8>, i: int)
    requires
        a != b,
        0 <= i <= a.len(),
        i <= b.len(),
        forall|j: int| 0 <= j < i ==> a[j] == b[j],
    ensures
        bytes_lt(a, b) || bytes_lt(b, a),
    decreases a.len() - i,
{
    if i == a.len() && i == b.len() {
        assert(a =~= b);
    } else if i == a.len() {
        assert(bytes_lt_at(a, b, i));
    } else if i == b.len() {
        assert(bytes_lt_at(b, a, i));
    } else if a[i] < b[i] {
        assert(bytes_lt_at(a, b, i));
    } else if b[i] < a[i] {
        assert(bytes_lt_at(b, a, i));
    } else {
        lemma_bytes_lt_total_from(a, b, i + 1);
    }
}

proof fn lemma_identifier_order_total(a: Seq<char>, b: Seq<char>)
    requires
        a != b,
    ensures
        identifier_lt(a, b) || identifier_lt(b, a),
{
    broadcast use vstd::utf8::encode_utf8_decode_utf8;

    assert(decode_utf8(encode_utf8(a)) == a);
    assert(decode_utf8(encode_utf8(b)) == b);
    lemma_bytes_lt_total_from(encode_utf8(a), encode_utf8(b), 0);
}

/// A tally has at most one dominant language, so the tie-break rule makes
/// the choice a function of the tally alone.
pub proof fn lemma_dominant_is_unique(m: Map<Seq<char>, nat>, a: Seq<char>, b: Seq<char>)
    requires
        is_dominant(m, a),
        is_dominant(m, b),
    ensures
        a == b,
{
    if a != b {
        assert(m.contains_key(b));
        assert(m.contains_key(a));
        lemma_bytes_lt_asymmetric(encode_utf8(a), encode_utf8(b));
    }
}

/// Whether identifier `a` sorts before identifier `b`.
fn precedes(a: &str, b: &str) -> (r: bool)
    ensures
        r == identifier_lt(a@, b@),
{
    let x = a.as_bytes();
    let y = b.as_bytes();
    let mut i: usize = 0;
    while i < x.len() && i < y.len()
        invariant
            i <= x.len(),
            i <= y.len(),
            x@ == encode_utf8(a@),
            y@ == encode_utf8(b@),
            forall|j: int| 0 <= j < i ==> x@[j] == y@[j],
        decreases x.len() - i,
    {
        if x[i] != y[i] {
            let r = x[i] < y[i];
            proof {
                if r {
                    assert(bytes_lt_at(x@, y@, i as int));
                } else {
                    assert forall|w: int| !bytes_lt_at(x@, y@, w) by {
                        if bytes_lt_at(x@, y@, w) {
                            if w > i {
                                assert(x@[i as int] == y@[i as int]);
                            }
                        }
                    }
                }
            }
            return r;
        }
        i += 1;
    }
    let r = x.len() < y.len();
    proof {
        if r {
            assert(bytes_lt_at(x@, y@, i as int));
        } else {
            assert forall|w: int| !bytes_lt_at(x@, y@, w) by {
                if bytes_lt_at(x@, y@, w) {
                    assert(x@[w] == y@[w]);
                }
            }
        }
    }
    r
}

/// The dominant language of the tally with its total, or `None` when the
/// tally is empty. Equal totals go to the identifier that sorts first.
pub fn get_primary_language(classifications: &LanguageTally) -> (r: Option<(String, u64)>)
    ensures
        r is None <==> classifications@.is_empty(),
        r matches Some((k, v)) ==> is_dominant(classifications@, k@) && v == classifications@[k@],
{
    proof {
        use_type_invariant(classifications);
    }
    let entries = &classifications.entries;
    let n = entries.len();
    if n == 0 {
        assert(classifications@ =~= Map::empty());
        return None;
    }
    let mut best: usize = 0;
    let mut i: usize = 1;
    while i < n
        invariant
            n == entries.len(),
            best < i <= n,
            forall|a: int, b: int| 0 <= a < b < entries.len() ==> entries[a].0@ != entries[b].0@,
            forall|j: int|
                0 <= j < i && j != best ==> #[trigger] entries[j].1 < entries[best as int].1 || (
                entries[j].1 == entries[best as int].1 && identifier_lt(
                    entries[best as int].0@,
                    entries[j].0@,
                )),
        decreases n - i,
    {
        let challenger = entries[i].1 > entries[best].1 || (entries[i].1 == entries[best].1
            && precedes(entries[i].0.as_str(), entries[best].0.as_str()));
        if challenger {
            proof {
                let c = entries[i as int];
                let o = entries[best as int];
                assert forall|j: int| 0 <= j < i + 1 && j != i implies #[trigger] entries[j].1
                    < c.1 || (entries[j].1 == c.1 && identifier_lt(c.0@, entries[j].0@)) by {
                    if j != best && entries[j].1 == o.1 && c.1 == o.1 {
                        lemma_bytes_lt_transitive(
                            encode_utf8(c.0@),
                            encode_utf8(o.0@),
                            encode_utf8(entries[j].0@),
                        );
                    }
                }
            }
            best = i;
        } else {
            proof {
                let c = entries[i as int];
                let o = entries[best as int];
                if c.1 == o.1 {
                    lemma_identifier_order_total(c.0@, o.0@);
                }
            }
        }
        i += 1;
    }
    let k = entries[best].0.clone();
    let v = entries[best].1;
    proof {
        let m = classifications@;
        assert(m.contains_key(k@));
        assert(m[k@] == v) by {
            let c = choose|c: int| 0 <= c < entries.len() && entries[c].0@ == k@;
            assert(c == best);
        }
        assert forall|o: Seq<char>| #[trigger] m.contains_key(o) && o != k@ implies m[o] < m[k@] || (
        m[o] == m[k@] && identifier_lt(k@, o)) by {
            let c = choose|c: int| 0 <= c < entries.len() && entries[c].0@ == o;
            assert(entries[c].1 < entries[best as int].1 || (entries[c].1 == entries[best as int].1
                && identifier_lt(entries[best as int].0@, entries[c].0@)));
        }
        assert(!m.is_empty()) by {
            assert(m.dom().contains(k@));
        }
    }
    Some((k, v))
}

proof fn lemma_weight_without(s: Seq<(Seq<char>, u64)>, j: int, k: Seq<char>)
    requires
        0 <= j < s.len(),
    ensures
        bytes_of_language(s, k) == bytes_of_language(s.remove(j), k) + if s[j].0 == k {
            s[j].1 as nat
        } else {
            0nat
        },
    decreases s.len(),
{
    if j == s.len() - 1 {
        assert(s.remove(j) =~= s.drop_last());
    } else {
        assert(s.remove(j).drop_last() =~= s.drop_last().remove(j));
        assert(s.remove(j).last() == s.last());
        lemma_weight_without(s.drop_last(), j, k);
    }
}

proof fn lemma_weights_ignore_order(s1: Seq<(Seq<char>, u64)>, s2: Seq<(Seq<char>, u64)>, k: Seq<char>)
    requires
        s1.to_multiset() == s2.to_multiset(),
    ensures
        bytes_of_language(s1, k) == bytes_of_language(s2, k),
    decreases s1.len(),
{
    broadcast use vstd::seq_lib::group_to_multiset_ensures;

    if s1.len() == 0 {
        assert(s2.to_multiset().len() == 0);
        assert(s2.len() == 0);
    } else {
        let x = s1.last();
        assert(s1 =~= s1.drop_last().push(x));
        assert(s1.to_multiset().count(x) > 0) by {
            assert(s1.contains(x)) by {
                assert(s1[s1.len() - 1] == x);
            }
        }
        assert(s2.contains(x));
        let j = choose|j: int| 0 <= j < s2.len() && s2[j] == x;
        assert(s1.drop_last().to_multiset() =~= s2.remove(j).to_multiset()) by {
            assert(s1.to_multiset() =~= s1.drop_last().to_multiset().insert(x));
            assert(s2.remove(j).to_multiset() =~= s2.to_multiset().remove(x));
        }
        lemma_weights_ignore_order(s1.drop_last(), s2.remove(j), k);
        lemma_weight_without(s2, j, k);
    }
}

/// Folding the same per-file results in any order yields the same tally.
pub proof fn lemma_tally_ignores_order(s1: Seq<(Seq<char>, u64)>, s2: Seq<(Seq<char>, u64)>)
    requires
        s1.to_multiset() == s2.to_multiset(),
    ensures
        tally_of(s1) == tally_of(s2),
{
    broadcast use vstd::seq_lib::group_to_multiset_ensures;

    assert forall|k: Seq<char>| mentions(s1, k) <==> mentions(s2, k) by {
        if mentions(s1, k) {
            let i = choose|i: int| 0 <= i < s1.len() && (#[trigger] s1[i]).0 == k;
            assert(s1.contains(s1[i]));
            assert(s1.to_multiset().count(s1[i]) > 0);
            assert(s2.contains(s1[i]));
            let j = choose|j: int| 0 <= j < s2.len() && s2[j] == s1[i];
            assert(s2[j].0 == k);
        }
        if mentions(s2, k) {
            let i = choose|i: int| 0 <= i < s2.len() && (#[trigger] s2[i]).0 == k;
            assert(s2.contains(s2[i]));
            assert(s2.to_multiset().count(s2[i]) > 0);
            assert(s1.contains(s2[i]));
            let j = choose|j: int| 0 <= j < s1.len() && s1[j] == s2[i];
            assert(s1[j].0 == k);
        }
    }
    assert forall|k: Seq<char>| bytes_of_language(s1, k) == bytes_of_language(s2, k) by {
        lemma_weights_ignore_order(s1, s2, k);
    }
    assert(tally_of(s1) =~= tally_of(s2));
}

/// What classifying one discovered file produced: its size at discovery time
/// and the classifier's identifiers, best first. `ranked` is `None` when the
/// file could not be read as text or the classifier failed on it.
pub struct FileOutcome {
    pub size: u64,
    pub ranked: Option<Vec<String>>,
}

/// The pair that a file contributes to the tally: its best guess and its
/// size, when it has a guess at all.
pub open spec fn outcome_pair(o: FileOutcome) -> Option<(Seq<char>, u64)> {
    match o.ranked {
        Some(v) => if v.len() > 0 {
            Some((v[0]@, o.size))
        } else {
            None
        },
        None => None,
    }
}

/// The pairs of the successfully classified files, in order.
pub open spec fn successes(s: Seq<FileOutcome>) -> Seq<(Seq<char>, u64)>
    decreases s.len(),
{
    if s.len() == 0 {
        Seq::empty()
    } else {
        match outcome_pair(s.last()) {
            Some(p) => successes(s.drop_last()).push(p),
            None => successes(s.drop_last()),
        }
    }
}

/// The summed size of the files that were classified successfully.
pub open spec fn classified_bytes(s: Seq<FileOutcome>) -> nat
    decreases s.len(),
{
    if s.len() == 0 {
        0
    } else {
        classified_bytes(s.drop_last()) + if outcome_pair(s.last()) is Some {
            s.last().size as nat
        } else {
            0nat
        }
    }
}

proof fn lemma_success_total(s: Seq<FileOutcome>)
    ensures
        total_bytes_of(successes(s)) == classified_bytes(s),
    decreases s.len(),
{
    if s.len() > 0 {
        lemma_success_total(s.drop_last());
        if let Some(p) = outcome_pair(s.last()) {
            assert(successes(s).drop_last() =~= successes(s.drop_last()));
        }
    }
}

/// The (best identifier, size) pair of every file that was classified, in
/// order. Unreadable files and files without a guess are dropped.
pub fn successful_classifications(outcomes: &Vec<FileOutcome>) -> (r: Vec<(String, u64)>)
    ensures
        weighted_view(r@) == successes(outcomes@),
{
    let mut r: Vec<(String, u64)> = Vec::new();
    let mut i: usize = 0;
    while i < outcomes.len()
        invariant
            i <= outcomes.len(),
            weighted_view(r@) == successes(outcomes@.take(i as int)),
        decreases outcomes.len() - i,
    {
        let ghost before = r@;
        proof {
            assert(outcomes@.take(i + 1).drop_last() =~= outcomes@.take(i as int));
            assert(outcomes@.take(i + 1).last() == outcomes@[i as int]);
        }
        match &outcomes[i].ranked {
            Some(ranked) => {
                if ranked.len() > 0 {
                    r.push((ranked[0].clone(), outcomes[i].size));
                    assert(weighted_view(r@) =~= weighted_view(before).push(
                        (ranked[0]@, outcomes[i as int].size),
                    ));
                }
            },
            None => {},
        }
        i += 1;
    }
    assert(outcomes@.take(i as int) =~= outcomes@);
    r
}

/// Tallies the per-file outcomes: each successfully classified file adds its
/// size to the total of its best guess; the others add nothing.
pub fn tally_file_outcomes(outcomes: &Vec<FileOutcome>) -> (r: LanguageTally)
    requires
        classified_bytes(outcomes@) <= u64::MAX,
    ensures
        r@ == tally_of(successes(outcomes@)),
        r.total() == classified_bytes(outcomes@),
{
    proof {
        lemma_success_total(outcomes@);
    }
    let pairs = successful_classifications(outcomes);
    classifications_to_map(&pairs)
}

/// The table that a JSON object whose values are all strings denotes, or
/// `None` when the text is not such an object.
pub uninterp spec fn string_table_of(json: Seq<char>) -> Option<Map<Seq<char>, Seq<char>>>;

pub open spec fn keys_distinct(v: Seq<(String, String)>) -> bool {
    forall|i: int, j: int| 0 <= i < j < v.len() ==> v[i].0@ != v[j].0@
}

/// The table that a list of (key, value) pairs with distinct keys stands for.
pub open spec fn pairs_table(v: Seq<(String, String)>) -> Map<Seq<char>, Seq<char>> {
    Map::new(
        |k: Seq<char>| exists|i: int| 0 <= i < v.len() && v[i].0@ == k,
        |k: Seq<char>| v[choose|i: int| 0 <= i < v.len() && v[i].0@ == k].1@,
    )
}

/// Relies on serde_json's `from_str` into a `HashMap<String, String>`: it
/// accepts the JSON objects whose values are strings and holds each key once.
#[verifier::external_body]
fn parse_string_table(json: &str) -> (r: Option<Vec<(String, String)>>)
    ensures
        r is None <==> string_table_of(json@) is None,
        r matches Some(v) ==> keys_distinct(v@) && string_table_of(json@) == Some(
            pairs_table(v@),
        ),
{
    match serde_json::from_str::<std::collections::HashMap<String, String>>(json) {
        Ok(m) => Some(m.into_iter().collect()),
        Err(_) => None,
    }
}

/// Display names of language identifiers, loaded once and passed to what
/// formats languages for people.
pub struct DisplayNames {
    entries: Vec<(String, String)>,
}

impl DisplayNames {
    #[verifier::type_invariant]
    spec fn well_formed(self) -> bool {
        keys_distinct(self.entries@)
    }
}

impl View for DisplayNames {
    type V = Map<Seq<char>, Seq<char>>;

    closed spec fn view(&self) -> Map<Seq<char>, Seq<char>> {
        pairs_table(self.entries@)
    }
}

/// The table that the JSON text denotes; an empty table when there is no
/// text or it is not a JSON object of strings.
pub open spec fn display_table(json: Option<&str>) -> Map<Seq<char>, Seq<char>> {
    match json {
        Some(j) => match string_table_of(j@) {
            Some(m) => m,
            None => Map::empty(),
        },
        None => Map::empty(),
    }
}

/// Loads the display-name table from its JSON text.
pub fn load_display_names(json: Option<&str>) -> (r: DisplayNames)
    ensures
        r@ == display_table(json),
{
    let parsed = match json {
        Some(j) => parse_string_table(j),
        None => None,
    };
    match parsed {
        Some(entries) => DisplayNames { entries },
        None => {
            let r = DisplayNames { entries: Vec::new() };
            assert(r@ =~= Map::empty());
            r
        },
    }
}

/// The display name of a language identifier, or the identifier itself when
/// the table has none.
pub fn language_display_name_or_default(names: &DisplayNames, language: &str) -> (r: String)
    ensures
        r@ == if names@.contains_key(language@) {
            names@[language@]
        } else {
            language@
        },
{
    proof {
        use_type_invariant(names);
    }
    let wanted = language.to_owned();
    let mut i: usize = 0;
    while i < names.entries.len()
        invariant
            i <= names.entries.len(),
            wanted@ == language@,
            keys_distinct(names.entries@),
            forall|j: int| 0 <= j < i ==> names.entries@[j].0@ != language@,
        decreases names.entries.len() - i,
    {
        if names.entries[i].0 == wanted {
            proof {
                let c = choose|c: int|
                    0 <= c < names.entries.len() && names.entries@[c].0@ == language@;
                assert(c == i);
            }
            return names.entries[i].1.clone();
        }
        i += 1;
    }
    wanted
}

} // verus!
