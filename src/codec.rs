//! The `baggage` wire format: a comma-separated list of `key=value`
//! fragments, and the ordered key/value map it decodes into.
use vstd::prelude::*;

verus! {

/// One decoded entry: a key and its value.
pub type Entry = (Seq<char>, Seq<char>);

/// Index of the first occurrence of `c` in `s`, or -1 when `c` does not occur.
pub open spec fn first_index_of(s: Seq<char>, c: char) -> int
    decreases s.len(),
{
    if s.len() == 0 {
        -1
    } else if s[0] == c {
        0
    } else {
        let r = first_index_of(s.drop_first(), c);
        if r < 0 {
            -1
        } else {
            r + 1
        }
    }
}

/// The pieces of `s` between commas, in order; an empty string is one empty piece.
pub open spec fn fragments(s: Seq<char>) -> Seq<Seq<char>>
    decreases s.len(),
{
    if s.len() == 0 {
        seq![Seq::empty()]
    } else {
        let f = fragments(s.drop_last());
        if s.last() == ',' {
            f.push(Seq::empty())
        } else {
            f.update(f.len() - 1, f.last().push(s.last()))
        }
    }
}

/// A fragment split at its first `=`; `None` when it holds no `=`.
pub open spec fn split_pair(f: Seq<char>) -> Option<Entry> {
    let i = first_index_of(f, '=');
    if i < 0 {
        None
    } else {
        Some((f.take(i), f.skip(i + 1)))
    }
}

/// No key occurs twice.
pub open spec fn keys_unique(es: Seq<Entry>) -> bool {
    forall|i: int, j: int| 0 <= i < es.len() && 0 <= j < es.len() && i != j ==> es[i].0 != es[j].0
}

/// `k` is the key of some entry.
pub open spec fn has_key(es: Seq<Entry>, k: Seq<char>) -> bool {
    exists|j: int| 0 <= j < es.len() && es[j].0 == k
}

/// The value stored under `k`, if any.
pub open spec fn lookup(es: Seq<Entry>, k: Seq<char>) -> Option<Seq<char>> {
    if has_key(es, k) {
        Some(es[choose|j: int| 0 <= j < es.len() && es[j].0 == k].1)
    } else {
        None
    }
}

/// Sets `k` to `v`: an existing entry keeps its place and takes the new value,
/// a new key is appended.
pub open spec fn put(es: Seq<Entry>, k: Seq<char>, v: Seq<char>) -> Seq<Entry> {
    if has_key(es, k) {
        es.update(choose|j: int| 0 <= j < es.len() && es[j].0 == k, (k, v))
    } else {
        es.push((k, v))
    }
}

/// Adds the pair of one fragment, if it has one.
pub open spec fn add_fragment(es: Seq<Entry>, f: Seq<char>) -> Seq<Entry> {
    match split_pair(f) {
        Some(p) => put(es, p.0, p.1),
        None => es,
    }
}

/// The entries that a sequence of fragments yields, later pairs overwriting earlier ones.
pub open spec fn entries_of(frags: Seq<Seq<char>>) -> Seq<Entry>
    decreases frags.len(),
{
    if frags.len() == 0 {
        Seq::empty()
    } else {
        add_fragment(entries_of(frags.drop_last()), frags.last())
    }
}

/// What a `baggage` header value decodes to.
pub open spec fn decode(s: Seq<char>) -> Seq<Entry> {
    entries_of(fragments(s))
}

/// `key=value` for one entry.
pub open spec fn entry_text(e: Entry) -> Seq<char> {
    e.0 + seq!['='] + e.1
}

/// The entries written in order as `key=value`, joined by commas.
pub open spec fn encode(es: Seq<Entry>) -> Seq<char>
    decreases es.len(),
{
    if es.len() == 0 {
        Seq::empty()
    } else if es.len() == 1 {
        entry_text(es[0])
    } else {
        encode(es.drop_last()) + seq![','] + entry_text(es.last())
    }
}

/// Setting a key keeps keys unique, stores the value under that key, and
/// leaves every other key's value as it was.
pub proof fn lemma_put_keys_unique(es: Seq<Entry>, k: Seq<char>, v: Seq<char>)
    requires
        keys_unique(es),
    ensures
        keys_unique(put(es, k, v)),
        has_key(put(es, k, v), k),
        lookup(put(es, k, v), k) == Some(v),
        forall|k2: Seq<char>| k2 != k ==> lookup(#[trigger] put(es, k, v), k2) == lookup(es, k2),
{
    let r = put(es, k, v);
    if has_key(es, k) {
        let j = choose|j: int| 0 <= j < es.len() && es[j].0 == k;
        assert(r[j].0 == k);
    } else {
        assert(r[es.len() as int].0 == k);
    }
    assert forall|k2: Seq<char>| k2 != k implies lookup(put(es, k, v), k2) == lookup(es, k2) by {
        if has_key(es, k2) {
            let j = choose|j: int| 0 <= j < es.len() && es[j].0 == k2;
            assert(r[j].0 == k2);
        }
        if has_key(r, k2) {
            let j = choose|j: int| 0 <= j < r.len() && r[j].0 == k2;
            assert(es[j].0 == k2);
        }
    }
}

/// A key/value map that remembers the order in which keys first arrived.
pub struct BaggageMap {
    entries: Vec<(String, String)>,
}

impl View for BaggageMap {
    type V = Seq<Entry>;

    closed spec fn view(&self) -> Seq<Entry> {
        self.entries@.map_values(|e: (String, String)| (e.0@, e.1@))
    }
}

impl BaggageMap {
    /// Every map that the library builds has this property.
    pub open spec fn wf(&self) -> bool {
        keys_unique(self@)
    }

    pub fn new() -> (r: BaggageMap)
        ensures
            r@ == Seq::<Entry>::empty(),
            r.wf(),
    {
        let r = BaggageMap { entries: Vec::new() };
        assert(r@ =~= Seq::<Entry>::empty());
        r
    }

    pub fn len(&self) -> (r: usize)
        ensures
            r == self@.len(),
    {
        self.entries.len()
    }

    pub fn is_empty(&self) -> (r: bool)
        ensures
            r == (self@.len() == 0),
    {
        self.entries.len() == 0
    }

    /// The key and value of the entry at position `i`.
    pub fn entry(&self, i: usize) -> (r: (&String, &String))
        requires
            i < self@.len(),
        ensures
            r.0@ == self@[i as int].0,
            r.1@ == self@[i as int].1,
    {
        let e = &self.entries[i];
        (&e.0, &e.1)
    }

    /// Position of the entry with key `key`.
    fn position(&self, key: &String) -> (r: Option<usize>)
        requires
            self.wf(),
        ensures
            match r {
                Some(j) => j < self@.len() && self@[j as int].0 == key@
                    && j == choose|j: int| 0 <= j < self@.len() && self@[j].0 == key@,
                None => !has_key(self@, key@),
            },
    {
        let mut i: usize = 0;
        while i < self.entries.len()
            invariant
                i <= self.entries@.len(),
                self.wf(),
                forall|j: int| 0 <= j < i ==> self@[j].0 != key@,
            decreases self.entries@.len() - i,
        {
            assert(self@[i as int].0 == self.entries@[i as int].0@);
            if self.entries[i].0.eq(key) {
                assert(self@[i as int].0 == key@);
                return Some(i);
            }
            i = i + 1;
        }
        None
    }

    /// The value stored under `key`.
    pub fn get(&self, key: &str) -> (r: Option<&String>)
        requires
            self.wf(),
        ensures
            match r {
                Some(v) => lookup(self@, key@) == Some(v@),
                None => lookup(self@, key@) is None,
            },
    {
        let k = key.to_owned();
        match self.position(&k) {
            Some(j) => {
                assert(self@[j as int].1 == self.entries@[j as int].1@);
                Some(&self.entries[j].1)
            },
            None => None,
        }
    }

    /// Sets `key` to `value`, in place when the key is already present.
    pub fn insert(&mut self, key: String, value: String)
        requires
            old(self).wf(),
        ensures
            final(self)@ == put(old(self)@, key@, value@),
            final(self).wf(),
    {
        proof {
            lemma_put_keys_unique(self@, key@, value@);
        }
        let ghost k = key@;
        let ghost v = value@;
        match self.position(&key) {
            Some(j) => {
                self.entries.set(j, (key, value));
                assert(self@ =~= put(old(self)@, k, v));
            },
            None => {
                self.entries.push((key, value));
                assert(self@ =~= put(old(self)@, k, v));
            },
        }
    }
}

/// The first occurrence of `c` is at `i` when none comes before it.
pub proof fn lemma_first_index_of(s: Seq<char>, c: char, i: int)
    requires
        0 <= i <= s.len(),
        i < s.len() ==> s[i] == c,
        forall|j: int| 0 <= j < i ==> s[j] != c,
    ensures
        first_index_of(s, c) == if i < s.len() { i } else { -1 },
    decreases s.len(),
{
    if s.len() > 0 && s[0] != c {
        lemma_first_index_of(s.drop_first(), c, i - 1);
    }
}

proof fn lemma_fragments_nonempty(s: Seq<char>)
    ensures
        fragments(s).len() >= 1,
    decreases s.len(),
{
    if s.len() > 0 {
        lemma_fragments_nonempty(s.drop_last());
    }
}

/// Splits one fragment at its first `=`.
fn parse_fragment(f: &str) -> (r: Option<(String, String)>)
    ensures
        match r {
            Some(p) => split_pair(f@) == Some((p.0@, p.1@)),
            None => split_pair(f@) is None,
        },
{
    let n = f.unicode_len();
    let mut i: usize = 0;
    while i < n
        invariant
            n == f@.len(),
            i <= n,
            forall|j: int| 0 <= j < i ==> f@[j] != '=',
        decreases n - i,
    {
        if f.get_char(i) == '=' {
            proof {
                lemma_first_index_of(f@, '=', i as int);
            }
            let key = f.substring_char(0, i).to_owned();
            let value = f.substring_char(i + 1, n).to_owned();
            assert(key@ == f@.take(i as int));
            assert(value@ == f@.skip(i + 1));
            return Some((key, value));
        }
        i = i + 1;
    }
    proof {
        lemma_first_index_of(f@, '=', n as int);
    }
    None
}

/// Adds the pair of one fragment to `map`; a fragment without `=` adds nothing.
fn add_fragment_to(map: &mut BaggageMap, f: &str)
    requires
        old(map).wf(),
    ensures
        final(map)@ == add_fragment(old(map)@, f@),
        final(map).wf(),
{
    match parse_fragment(f) {
        Some(p) => map.insert(p.0, p.1),
        None => {},
    }
}

/// Decodes a `baggage` header value. Fragments without `=` are dropped; a
/// later fragment with the same key overwrites the value of an earlier one.
pub fn decode_baggage(raw: &str) -> (r: BaggageMap)
    ensures
        r@ == decode(raw@),
        r.wf(),
{
    let n = raw.unicode_len();
    let mut map = BaggageMap::new();
    let mut start: usize = 0;
    let mut i: usize = 0;
    assert(raw@.take(0) =~= Seq::<char>::empty());
    assert(raw@.subrange(0, 0) =~= Seq::<char>::empty());
    while i < n
        invariant
            n == raw@.len(),
            start <= i <= n,
            map.wf(),
            fragments(raw@.take(i as int)).len() >= 1,
            map@ == entries_of(fragments(raw@.take(i as int)).drop_last()),
            fragments(raw@.take(i as int)).last() == raw@.subrange(start as int, i as int),
        decreases n - i,
    {
        let c = raw.get_char(i);
        let ghost f0 = fragments(raw@.take(i as int));
        let ghost f1 = fragments(raw@.take(i + 1));
        assert(raw@.take(i + 1).drop_last() =~= raw@.take(i as int));
        assert(raw@.take(i + 1).last() == c);
        if c == ',' {
            let frag = raw.substring_char(start, i);
            add_fragment_to(&mut map, frag);
            start = i + 1;
            assert(f1 == f0.push(Seq::empty()));
            assert(f1.drop_last() =~= f0);
            assert(f0 =~= f0.drop_last().push(f0.last()));
            assert(raw@.subrange(start as int, i + 1) =~= Seq::<char>::empty());
        } else {
            assert(f1 == f0.update(f0.len() - 1, f0.last().push(c)));
            assert(f1.drop_last() =~= f0.drop_last());
            assert(raw@.subrange(start as int, i + 1) =~= raw@.subrange(start as int, i as int).push(c));
        }
        i = i + 1;
    }
    let frag = raw.substring_char(start, n);
    add_fragment_to(&mut map, frag);
    assert(raw@.take(n as int) =~= raw@);
    map
}

proof fn lemma_first_index_of_facts(s: Seq<char>, c: char)
    ensures
        first_index_of(s, c) < s.len(),
        first_index_of(s, c) < 0 ==> free_of(s, c),
        first_index_of(s, c) >= 0 ==> free_of(s.take(first_index_of(s, c)), c),
    decreases s.len(),
{
    if s.len() > 0 && s[0] != c {
        let t = s.drop_first();
        lemma_first_index_of_facts(t, c);
        let r = first_index_of(t, c);
        if r < 0 {
            assert forall|i: int| 0 <= i < s.len() implies s[i] != c by {
                if i > 0 {
                    assert(s[i] == t[i - 1]);
                }
            }
        } else {
            let p = s.take(r + 1);
            assert forall|i: int| 0 <= i < p.len() implies p[i] != c by {
                if i > 0 {
                    assert(s[i] == t.take(r)[i - 1]);
                }
            }
        }
    }
}

proof fn lemma_fragments_comma_free(s: Seq<char>)
    ensures
        forall|i: int| 0 <= i < fragments(s).len() ==> free_of(#[trigger] fragments(s)[i], ','),
    decreases s.len(),
{
    if s.len() > 0 {
        lemma_fragments_comma_free(s.drop_last());
        lemma_fragments_nonempty(s.drop_last());
        let f = fragments(s.drop_last());
        if s.last() != ',' {
            let g = f.last().push(s.last());
            assert(free_of(f.last(), ','));
            assert(free_of(g, ',')) by {
                assert forall|i: int| 0 <= i < g.len() implies g[i] != ',' by {
                    if i < f.last().len() {
                        assert(g[i] == f.last()[i]);
                    }
                }
            }
        }
    }
}

proof fn lemma_split_pair_encodable(f: Seq<char>)
    requires
        free_of(f, ','),
    ensures
        match split_pair(f) {
            Some(p) => free_of(p.0, ',') && free_of(p.0, '=') && free_of(p.1, ','),
            None => true,
        },
{
    lemma_first_index_of_facts(f, '=');
    let i = first_index_of(f, '=');
    if i >= 0 {
        let head = f.take(i);
        assert forall|j: int| 0 <= j < head.len() implies head[j] != ',' by {
            assert(head[j] == f[j]);
        }
        let tail = f.skip(i + 1);
        assert forall|j: int| 0 <= j < tail.len() implies tail[j] != ',' by {
            assert(tail[j] == f[j + i + 1]);
        }
    }
}

/// Setting a key that holds no `,` or `=` to a value without `,` keeps
/// every entry writable.
pub proof fn lemma_put_encodable(es: Seq<Entry>, k: Seq<char>, v: Seq<char>)
    requires
        encodable(es),
        free_of(k, ','),
        free_of(k, '='),
        free_of(v, ','),
    ensures
        encodable(put(es, k, v)),
{
    let r = put(es, k, v);
    assert forall|i: int| 0 <= i < r.len() implies free_of(#[trigger] r[i].0, ',') && free_of(
        r[i].0,
        '=',
    ) && free_of(r[i].1, ',') by {
        if i < es.len() && r[i] != (k, v) {
            assert(r[i] == es[i]);
        }
    }
}

proof fn lemma_entries_of_facts(frags: Seq<Seq<char>>)
    requires
        forall|i: int| 0 <= i < frags.len() ==> free_of(#[trigger] frags[i], ','),
    ensures
        keys_unique(entries_of(frags)),
        encodable(entries_of(frags)),
    decreases frags.len(),
{
    if frags.len() > 0 {
        let rest = frags.drop_last();
        assert forall|i: int| 0 <= i < rest.len() implies free_of(#[trigger] rest[i], ',') by {
            assert(rest[i] == frags[i]);
        }
        lemma_entries_of_facts(rest);
        let es = entries_of(rest);
        let f = frags.last();
        assert(free_of(f, ','));
        lemma_split_pair_encodable(f);
        match split_pair(f) {
            Some(p) => {
                lemma_put_keys_unique(es, p.0, p.1);
                lemma_put_encodable(es, p.0, p.1);
            },
            None => {},
        }
    }
}

/// A decoded header has unique keys, and every entry can be written back
/// unchanged: no key holds `,` or `=`, no value holds `,`.
pub proof fn lemma_decode_facts(s: Seq<char>)
    ensures
        keys_unique(decode(s)),
        encodable(decode(s)),
{
    lemma_fragments_comma_free(s);
    lemma_entries_of_facts(fragments(s));
}

/// Encoding depends on the entries alone: two maps with the same entries in
/// the same order give the same text.
pub proof fn lemma_encode_deterministic(a: &BaggageMap, b: &BaggageMap)
    requires
        a@ == b@,
    ensures
        encode(a@) == encode(b@),
{
}

/// Encodes the map as `key=value` fragments joined by commas, in the map's
/// order; the empty map gives the empty string.
pub fn encode_baggage(map: &BaggageMap) -> (r: String)
    ensures
        r@ == encode(map@),
{
    let mut out = String::new();
    let mut i: usize = 0;
    let n = map.len();
    assert(map@.take(0) =~= Seq::<Entry>::empty());
    while i < n
        invariant
            n == map@.len(),
            i <= n,
            out@ == encode(map@.take(i as int)),
        decreases n - i,
    {
        let (k, v) = map.entry(i);
        let ghost before = out@;
        if i > 0 {
            out.append(",");
        }
        out.append(k.as_str());
        out.append("=");
        out.append(v.as_str());
        proof {
            reveal_strlit(",");
            reveal_strlit("=");
            assert(","@ =~= seq![',']);
            assert("="@ =~= seq!['=']);
            let t = map@.take(i + 1);
            assert(t.drop_last() =~= map@.take(i as int));
            assert(t.last() == map@[i as int]);
            if i == 0 {
                assert(out@ =~= entry_text(map@[0]));
            } else {
                assert(out@ =~= before + seq![','] + entry_text(map@[i as int]));
            }
        }
        i = i + 1;
    }
    assert(map@.take(n as int) =~= map@);
    out
}

/// `c` does not occur in `s`.
pub open spec fn free_of(s: Seq<char>, c: char) -> bool {
    forall|i: int| 0 <= i < s.len() ==> s[i] != c
}

/// Every key is free of `,` and `=`, and every value free of `,`: what the
/// wire format can carry unchanged.
pub open spec fn encodable(es: Seq<Entry>) -> bool {
    forall|i: int|
        0 <= i < es.len() ==> free_of(#[trigger] es[i].0, ',') && free_of(es[i].0, '=')
            && free_of(es[i].1, ',')
}

proof fn lemma_fragments_single(s: Seq<char>)
    requires
        free_of(s, ','),
    ensures
        fragments(s) == seq![s],
    decreases s.len(),
{
    if s.len() > 0 {
        assert(free_of(s.drop_last(), ',')) by {
            assert forall|i: int| 0 <= i < s.len() - 1 implies s.drop_last()[i] != ',' by {
                assert(s.drop_last()[i] == s[i]);
            }
        }
        assert(s.last() == s[s.len() - 1]);
        lemma_fragments_single(s.drop_last());
        assert(s.drop_last().push(s.last()) =~= s);
        assert(seq![s.drop_last()].update(0, s.drop_last().push(s.last())) =~= seq![s]);
    } else {
        assert(s =~= Seq::<char>::empty());
    }
}

proof fn lemma_fragments_after_comma(a: Seq<char>, b: Seq<char>)
    requires
        free_of(b, ','),
    ensures
        fragments(a + seq![','] + b) == fragments(a).push(b),
    decreases b.len(),
{
    let s = a + seq![','] + b;
    if b.len() == 0 {
        assert(b =~= Seq::<char>::empty());
        assert(s =~= a + seq![',']);
        assert(s.drop_last() =~= a);
    } else {
        assert(s.drop_last() =~= a + seq![','] + b.drop_last());
        assert(free_of(b.drop_last(), ',')) by {
            assert forall|i: int| 0 <= i < b.len() - 1 implies b.drop_last()[i] != ',' by {
                assert(b.drop_last()[i] == b[i]);
            }
        }
        assert(b.last() == b[b.len() - 1]);
        lemma_fragments_after_comma(a, b.drop_last());
        let f = fragments(a).push(b.drop_last());
        assert(s.last() == b.last());
        assert(b.drop_last().push(b.last()) =~= b);
        assert(f.update(f.len() - 1, b.drop_last().push(b.last())) =~= fragments(a).push(b));
    }
}

proof fn lemma_split_entry(e: Entry)
    requires
        free_of(e.0, '='),
    ensures
        split_pair(entry_text(e)) == Some(e),
{
    let t = entry_text(e);
    lemma_first_index_of(t, '=', e.0.len() as int);
    assert(t.take(e.0.len() as int) =~= e.0);
    assert(t.skip(e.0.len() as int + 1) =~= e.1);
}

/// Decoding what `encode` wrote gives back the same entries, in the same
/// order, for every map whose keys hold no `,` or `=` and whose values hold
/// no `,`.
pub proof fn lemma_decode_encode(es: Seq<Entry>)
    requires
        keys_unique(es),
        encodable(es),
    ensures
        decode(encode(es)) == es,
    decreases es.len(),
{
    if es.len() == 0 {
        assert(fragments(Seq::<char>::empty()) == seq![Seq::<char>::empty()]);
        assert(seq![Seq::<char>::empty()].drop_last() =~= Seq::<Seq<char>>::empty());
        lemma_first_index_of(Seq::<char>::empty(), '=', 0);
        assert(entries_of(Seq::<Seq<char>>::empty()) == Seq::<Entry>::empty());
        assert(add_fragment(Seq::<Entry>::empty(), Seq::<char>::empty()) == Seq::<Entry>::empty());
        assert(encode(es) == Seq::<char>::empty());
        assert(es =~= Seq::<Entry>::empty());
    } else {
        let e = es.last();
        let rest = es.drop_last();
        let t = entry_text(e);
        assert(e == es[es.len() - 1]);
        assert(free_of(t, ',')) by {
            assert forall|i: int| 0 <= i < t.len() implies t[i] != ',' by {
                if i < e.0.len() {
                    assert(t[i] == e.0[i]);
                } else if i > e.0.len() {
                    assert(t[i] == e.1[i - e.0.len() - 1]);
                }
            }
        }
        lemma_split_entry(e);
        assert(!has_key(rest, e.0)) by {
            if has_key(rest, e.0) {
                let j = choose|j: int| 0 <= j < rest.len() && rest[j].0 == e.0;
                assert(es[j].0 == es[es.len() - 1].0);
            }
        }
        if es.len() == 1 {
            lemma_fragments_single(t);
            assert(seq![t].drop_last() =~= Seq::<Seq<char>>::empty());
            assert(rest =~= Seq::<Entry>::empty());
            assert(encode(es) == t);
            assert(entries_of(Seq::<Seq<char>>::empty()) == Seq::<Entry>::empty());
            assert(seq![t].last() == t);
            assert(entries_of(seq![t]) == add_fragment(Seq::<Entry>::empty(), t));
            assert(put(Seq::<Entry>::empty(), e.0, e.1) == Seq::<Entry>::empty().push(e));
            assert(Seq::<Entry>::empty().push(e) =~= es);
        } else {
            assert(keys_unique(rest));
            assert(encodable(rest)) by {
                assert forall|i: int| 0 <= i < rest.len() implies free_of(#[trigger] rest[i].0, ',')
                    && free_of(rest[i].0, '=') && free_of(rest[i].1, ',') by {
                    assert(rest[i] == es[i]);
                }
            }
            lemma_decode_encode(rest);
            lemma_fragments_after_comma(encode(rest), t);
            let f = fragments(encode(rest)).push(t);
            assert(f.drop_last() =~= fragments(encode(rest)));
            assert(encode(es) == encode(rest) + seq![','] + t);
            assert(entries_of(f) == add_fragment(entries_of(fragments(encode(rest))), t));
            assert(put(rest, e.0, e.1) == rest.push(e));
            assert(rest.push(e) =~= es);
        }
    }
}

} // verus!
