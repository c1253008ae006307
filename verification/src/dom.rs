//! The node and attribute data model: a tagged content variant, an ordered
//! attribute map with unique keys, and the id/class accessors of elements.

use vstd::prelude::*;

verus! {

/// The value bound to `key` in an attribute sequence: the value of the first
/// pair carrying that name, or `None` when no pair does.
pub open spec fn spec_lookup(m: Seq<(Seq<char>, Seq<char>)>, key: Seq<char>) -> Option<Seq<char>>
    decreases m.len(),
{
    if m.len() == 0 {
        None
    } else if m[0].0 == key {
        Some(m[0].1)
    } else {
        spec_lookup(m.drop_first(), key)
    }
}

/// No attribute name occurs twice.
pub open spec fn unique_keys(m: Seq<(Seq<char>, Seq<char>)>) -> bool {
    forall|i: int, j: int| 0 <= i < j < m.len() ==> m[i].0 != m[j].0
}

/// `m` with `key` bound to `value`: the first pair carrying `key` is replaced
/// in place, or the new pair is appended when no pair carries it.
pub open spec fn spec_insert(
    m: Seq<(Seq<char>, Seq<char>)>,
    key: Seq<char>,
    value: Seq<char>,
) -> Seq<(Seq<char>, Seq<char>)>
    decreases m.len(),
{
    if m.len() == 0 {
        seq![(key, value)]
    } else if m[0].0 == key {
        seq![(key, value)] + m.drop_first()
    } else {
        seq![m[0]] + spec_insert(m.drop_first(), key, value)
    }
}

/// An element's attributes: name/value pairs with unique names, kept in
/// insertion order.
#[derive(Debug)]
pub struct AttrMap {
    entries: Vec<(String, String)>,
}

impl View for AttrMap {
    type V = Seq<(Seq<char>, Seq<char>)>;

    closed spec fn view(&self) -> Seq<(Seq<char>, Seq<char>)> {
        self.entries.deep_view()
    }
}

impl AttrMap {
    /// An attribute map with no entries.
    pub fn new() -> (m: AttrMap)
        ensures
            m@ == Seq::<(Seq<char>, Seq<char>)>::empty(),
    {
        let m = AttrMap { entries: Vec::new() };
        proof {
            assert(m@ =~= Seq::<(Seq<char>, Seq<char>)>::empty());
        }
        m
    }

    /// How many attributes the map holds.
    pub fn len(&self) -> (n: usize)
        ensures
            n == self@.len(),
    {
        self.entries.len()
    }

    /// The `i`th name/value pair, in insertion order.
    pub fn entry(&self, i: usize) -> (p: &(String, String))
        requires
            i < self@.len(),
        ensures
            p.0@ == self@[i as int].0,
            p.1@ == self@[i as int].1,
    {
        &self.entries[i]
    }

    /// The value bound to `key`, if any.
    pub fn get<'a>(&'a self, key: &str) -> (r: Option<&'a String>)
        ensures
            match r {
                Some(v) => spec_lookup(self@, key@) == Some(v@),
                None => spec_lookup(self@, key@) is None,
            },
    {
        let k = key.to_owned();
        let n = self.entries.len();
        let mut i: usize = 0;
        while i < n
            invariant
                i <= n,
                n == self@.len(),
                k@ == key@,
                n == self.entries@.len(),
                forall|j: int| 0 <= j < i ==> self@[j].0 != key@,
            decreases n - i,
        {
            if self.entries[i].0 == k {
                proof {
                    lemma_lookup_found(self@, key@, i as int);
                }
                return Some(&self.entries[i].1);
            }
            i += 1;
        }
        proof {
            lemma_lookup_absent(self@, key@);
        }
        None
    }

    /// Binds `name` to `value`: replaces the value of an existing entry with
    /// that name, or appends a new entry. Unique names stay unique.
    pub fn insert(&mut self, name: String, value: String)
        ensures
            final(self)@ == spec_insert(old(self)@, name@, value@),
    {
        let n = self.entries.len();
        let mut i: usize = 0;
        while i < n
            invariant
                i <= n,
                n == self@.len(),
                n == self.entries@.len(),
                self@ == old(self)@,
                self.entries@ == old(self).entries@,
                forall|j: int| 0 <= j < i ==> self@[j].0 != name@,
            decreases n - i,
        {
            if self.entries[i].0 == name {
                proof {
                    lemma_insert_found(self@, name@, value@, i as int);
                }
                let ghost pre = self.entries@;
                self.entries.remove(i);
                self.entries.insert(i, (name, value));
                proof {
                    assert(self.entries@ =~= pre.update(i as int, self.entries@[i as int]));
                    assert(self@ =~= old(self)@.update(i as int, (name@, value@)));
                }
                return;
            }
            i += 1;
        }
        proof {
            lemma_insert_absent(self@, name@, value@);
        }
        let ghost pre = self@;
        self.entries.push((name, value));
        proof {
            assert(self@ =~= pre.push((name@, value@)));
        }
    }
}

proof fn lemma_lookup_found(m: Seq<(Seq<char>, Seq<char>)>, key: Seq<char>, i: int)
    requires
        0 <= i < m.len(),
        m[i].0 == key,
        forall|j: int| 0 <= j < i ==> m[j].0 != key,
    ensures
        spec_lookup(m, key) == Some(m[i].1),
    decreases i,
{
    if i > 0 {
        lemma_lookup_found(m.drop_first(), key, i - 1);
    }
}

proof fn lemma_lookup_absent(m: Seq<(Seq<char>, Seq<char>)>, key: Seq<char>)
    requires
        forall|j: int| 0 <= j < m.len() ==> m[j].0 != key,
    ensures
        spec_lookup(m, key) is None,
    decreases m.len(),
{
    if m.len() > 0 {
        lemma_lookup_absent(m.drop_first(), key);
    }
}

proof fn lemma_insert_found(m: Seq<(Seq<char>, Seq<char>)>, key: Seq<char>, value: Seq<char>, i: int)
    requires
        0 <= i < m.len(),
        m[i].0 == key,
        forall|j: int| 0 <= j < i ==> m[j].0 != key,
    ensures
        spec_insert(m, key, value) == m.update(i, (key, value)),
    decreases i,
{
    if i == 0 {
        assert(spec_insert(m, key, value) =~= m.update(0, (key, value)));
    } else {
        lemma_insert_found(m.drop_first(), key, value, i - 1);
        assert(seq![m[0]] + m.drop_first().update(i - 1, (key, value)) =~= m.update(i, (key, value)));
    }
}

proof fn lemma_insert_absent(m: Seq<(Seq<char>, Seq<char>)>, key: Seq<char>, value: Seq<char>)
    requires
        forall|j: int| 0 <= j < m.len() ==> m[j].0 != key,
    ensures
        spec_insert(m, key, value) == m.push((key, value)),
    decreases m.len(),
{
    if m.len() == 0 {
        assert(spec_insert(m, key, value) =~= m.push((key, value)));
    } else {
        lemma_insert_absent(m.drop_first(), key, value);
        assert(seq![m[0]] + m.drop_first().push((key, value)) =~= m.push((key, value)));
    }
}

/// Law: inserting never breaks name uniqueness.
pub proof fn lemma_insert_keeps_unique_keys(
    m: Seq<(Seq<char>, Seq<char>)>,
    key: Seq<char>,
    value: Seq<char>,
)
    requires
        unique_keys(m),
    ensures
        unique_keys(spec_insert(m, key, value)),
    decreases m.len(),
{
    if m.len() == 0 {
    } else if m[0].0 == key {
        let r = seq![(key, value)] + m.drop_first();
        assert forall|i: int, j: int| 0 <= i < j < r.len() implies r[i].0 != r[j].0 by {
            if i > 0 {
                assert(r[i] == m[i]);
                assert(r[j] == m[j]);
            } else {
                assert(r[j] == m[j]);
                assert(m[0].0 != m[j].0);
            }
        }
    } else {
        assert(unique_keys(m.drop_first())) by {
            assert forall|i: int, j: int|
                0 <= i < j < m.drop_first().len() implies m.drop_first()[i].0 != m.drop_first()[j].0 by {
                assert(m.drop_first()[i] == m[i + 1]);
                assert(m.drop_first()[j] == m[j + 1]);
            }
        }
        lemma_insert_keeps_unique_keys(m.drop_first(), key, value);
        lemma_insert_keeps_keys(m.drop_first(), key, value);
        let r = seq![m[0]] + spec_insert(m.drop_first(), key, value);
        assert forall|i: int, j: int| 0 <= i < j < r.len() implies r[i].0 != r[j].0 by {
            if i > 0 {
                assert(r[i] == spec_insert(m.drop_first(), key, value)[i - 1]);
                assert(r[j] == spec_insert(m.drop_first(), key, value)[j - 1]);
            } else {
                assert(r[j] == spec_insert(m.drop_first(), key, value)[j - 1]);
            }
        }
    }
}

/// The pieces of `s` between its space characters, in order. Splitting is on
/// the literal space character only; empty pieces are kept, and a string with
/// no space is one piece (so the empty string is one empty piece).
pub open spec fn split_on_space(s: Seq<char>) -> Seq<Seq<char>>
    decreases s.len(),
{
    if s.len() == 0 {
        seq![Seq::<char>::empty()]
    } else if s[0] == ' ' {
        seq![Seq::<char>::empty()] + split_on_space(s.drop_first())
    } else {
        let rest = split_on_space(s.drop_first());
        seq![seq![s[0]] + rest[0]] + rest.drop_first()
    }
}

/// `s` with every repeated element dropped: the first occurrences, in order.
pub open spec fn distinct_in_order(s: Seq<Seq<char>>) -> Seq<Seq<char>>
    decreases s.len(),
{
    if s.len() == 0 {
        Seq::empty()
    } else if s.drop_last().contains(s.last()) {
        distinct_in_order(s.drop_last())
    } else {
        distinct_in_order(s.drop_last()).push(s.last())
    }
}

/// Every name in an inserted sequence is an old name or the inserted one.
proof fn lemma_insert_keeps_keys(m: Seq<(Seq<char>, Seq<char>)>, key: Seq<char>, value: Seq<char>)
    ensures
        forall|i: int|
            0 <= i < spec_insert(m, key, value).len() ==> (spec_insert(m, key, value)[i].0 == key
                || exists|j: int| 0 <= j < m.len() && m[j].0 == #[trigger] spec_insert(
                m,
                key,
                value,
            )[i].0),
    decreases m.len(),
{
    if m.len() == 0 {
    } else if m[0].0 == key {
        let r = seq![(key, value)] + m.drop_first();
        assert forall|i: int| 0 <= i < r.len() implies (r[i].0 == key || exists|j: int|
            0 <= j < m.len() && m[j].0 == r[i].0) by {
            if i > 0 {
                assert(r[i] == m[i]);
                assert(m[i].0 == r[i].0);
            }
        }
    } else {
        lemma_insert_keeps_keys(m.drop_first(), key, value);
        let s = spec_insert(m.drop_first(), key, value);
        let r = seq![m[0]] + s;
        assert forall|i: int| 0 <= i < r.len() implies (r[i].0 == key || exists|j: int|
            0 <= j < m.len() && m[j].0 == r[i].0) by {
            if i == 0 {
                assert(m[0].0 == r[0].0);
            } else {
                assert(r[i] == s[i - 1]);
                if s[i - 1].0 != key {
                    let j = choose|j: int| 0 <= j < m.drop_first().len() && m.drop_first()[j].0
                        == s[i - 1].0;
                    assert(m[j + 1].0 == r[i].0);
                }
            }
        }
    }
}

/// Splitting yields at least one piece.
pub proof fn lemma_split_len_pos(s: Seq<char>)
    ensures
        split_on_space(s).len() >= 1,
    decreases s.len(),
{
    if s.len() > 0 {
        lemma_split_len_pos(s.drop_first());
    }
}

/// Where the first `i` characters of `t` are no spaces: at `i == t.len()` the
/// whole of `t` is the one piece; at a space `t[i]` the pieces are `t` up to
/// `i` and then the pieces of what follows the space.
proof fn lemma_split_prefix(t: Seq<char>, i: int)
    requires
        0 <= i <= t.len(),
        forall|k: int| 0 <= k < i ==> t[k] != ' ',
    ensures
        i == t.len() ==> split_on_space(t) == seq![t],
        i < t.len() && t[i] == ' ' ==> split_on_space(t) == seq![t.take(i)] + split_on_space(
            t.skip(i + 1),
        ),
    decreases i,
{
    if i == 0 {
        if i == t.len() {
            assert(t =~= Seq::<char>::empty());
            assert(split_on_space(t) =~= seq![t]);
        } else if t[0] == ' ' {
            assert(t.take(0) =~= Seq::<char>::empty());
            assert(t.skip(1) =~= t.drop_first());
            assert(split_on_space(t) =~= seq![t.take(0)] + split_on_space(t.skip(1)));
        }
    } else {
        let t1 = t.drop_first();
        assert(forall|k: int| 0 <= k < i - 1 ==> t1[k] != ' ');
        lemma_split_prefix(t1, i - 1);
        lemma_split_len_pos(t1);
        let rest = split_on_space(t1);
        if i == t.len() {
            assert(rest == seq![t1]);
            assert(seq![t[0]] + rest[0] =~= t);
            assert(rest.drop_first() =~= Seq::<Seq<char>>::empty());
            assert(split_on_space(t) =~= seq![t]);
        } else if t[i] == ' ' {
            assert(t1[i - 1] == ' ');
            assert(rest == seq![t1.take(i - 1)] + split_on_space(t1.skip(i)));
            assert(rest[0] == t1.take(i - 1));
            assert(seq![t[0]] + t1.take(i - 1) =~= t.take(i));
            assert(rest.drop_first() =~= split_on_space(t1.skip(i)));
            assert(t1.skip(i) =~= t.skip(i + 1));
            assert(split_on_space(t) =~= seq![t.take(i)] + split_on_space(t.skip(i + 1)));
        }
    }
}

/// Law: dropping repeats keeps membership unchanged.
pub proof fn lemma_distinct_membership(s: Seq<Seq<char>>, x: Seq<char>)
    ensures
        distinct_in_order(s).contains(x) == s.contains(x),
    decreases s.len(),
{
    if s.len() > 0 {
        let d = s.drop_last();
        lemma_distinct_membership(d, x);
        assert(s.contains(x) == (d.contains(x) || s.last() == x)) by {
            if d.contains(x) {
                let i = choose|i: int| 0 <= i < d.len() && d[i] == x;
                assert(s[i] == x);
            }
            if s.last() == x {
                assert(s[s.len() - 1] == x);
            }
            if s.contains(x) {
                let i = choose|i: int| 0 <= i < s.len() && s[i] == x;
                if i < s.len() - 1 {
                    assert(d[i] == x);
                }
            }
        }
        if d.contains(s.last()) {
            assert(distinct_in_order(s) == distinct_in_order(d));
        } else {
            let r = distinct_in_order(d);
            assert(distinct_in_order(s) == r.push(s.last()));
            assert(r.push(s.last()).contains(x) == (r.contains(x) || s.last() == x)) by {
                if r.contains(x) {
                    let i = choose|i: int| 0 <= i < r.len() && r[i] == x;
                    assert(r.push(s.last())[i] == x);
                }
                if s.last() == x {
                    assert(r.push(s.last())[r.len() as int] == x);
                }
                if r.push(s.last()).contains(x) {
                    let i = choose|i: int|
                        0 <= i < r.push(s.last()).len() && r.push(s.last())[i] == x;
                    if i < r.len() {
                        assert(r[i] == x);
                    }
                }
            }
        }
    }
}

/// Law: dropping repeats leaves no repeats.
pub proof fn lemma_distinct_no_duplicates(s: Seq<Seq<char>>)
    ensures
        distinct_in_order(s).no_duplicates(),
    decreases s.len(),
{
    if s.len() > 0 {
        lemma_distinct_no_duplicates(s.drop_last());
        if !s.drop_last().contains(s.last()) {
            lemma_distinct_membership(s.drop_last(), s.last());
            let r = distinct_in_order(s.drop_last());
            assert(!r.contains(s.last()));
            assert forall|i: int, j: int|
                0 <= i < j < r.push(s.last()).len() implies r.push(s.last())[i] != r.push(
                s.last(),
            )[j] by {
                if j < r.len() {
                } else {
                    assert(r.push(s.last())[j] == s.last());
                    if r.push(s.last())[i] == s.last() {
                        assert(r[i] == s.last());
                        assert(r.contains(s.last()));
                    }
                }
            }
        }
    }
}

/// Law: dropping repeats keeps the set of elements.
pub proof fn lemma_distinct_to_set(s: Seq<Seq<char>>)
    ensures
        distinct_in_order(s).to_set() == s.to_set(),
{
    assert forall|x: Seq<char>| distinct_in_order(s).to_set().contains(x) == s.to_set().contains(
        x,
    ) by {
        lemma_distinct_membership(s, x);
    }
    assert(distinct_in_order(s).to_set() =~= s.to_set());
}

/// The pieces of `s` between its spaces, as `str::split` with a space yields
/// them.
fn split_spaces(s: &str) -> (r: Vec<String>)
    ensures
        r.deep_view() == split_on_space(s@),
{
    let n = s.unicode_len();
    let mut r: Vec<String> = Vec::new();
    let mut start: usize = 0;
    let mut i: usize = 0;
    proof {
        assert(s@.skip(0) =~= s@);
        assert(r.deep_view() =~= Seq::<Seq<char>>::empty());
    }
    while i < n
        invariant
            start <= i <= n,
            n == s@.len(),
            forall|k: int| start <= k < i ==> s@[k] != ' ',
            split_on_space(s@) == r.deep_view() + split_on_space(s@.skip(start as int)),
        decreases n - i,
    {
        let c = s.get_char(i);
        if c == ' ' {
            let piece = s.substring_char(start, i);
            let tok = piece.to_owned();
            let ghost pre = r.deep_view();
            r.push(tok);
            proof {
                let t = s@.skip(start as int);
                assert(forall|k: int| 0 <= k < i - start ==> t[k] == s@[k + start]);
                lemma_split_prefix(t, i - start);
                assert(t[i - start] == ' ');
                assert(t.take(i - start) =~= s@.subrange(start as int, i as int));
                assert(t.skip(i - start + 1) =~= s@.skip(i + 1));
                assert(r.deep_view() =~= pre.push(tok@));
                assert(r.deep_view() + split_on_space(s@.skip(i + 1)) =~= pre + (seq![
                    t.take(i - start),
                ] + split_on_space(t.skip(i - start + 1))));
                assert(split_on_space(s@) == r.deep_view() + split_on_space(s@.skip(i + 1)));
            }
            start = i + 1;
        }
        i += 1;
    }
    let piece = s.substring_char(start, n);
    let tok = piece.to_owned();
    let ghost pre = r.deep_view();
    r.push(tok);
    proof {
        let t = s@.skip(start as int);
        assert(forall|k: int| 0 <= k < n - start ==> t[k] == s@[k + start]);
        lemma_split_prefix(t, n - start);
        assert(split_on_space(t) == seq![t]);
        assert(tok@ == s@.subrange(start as int, n as int));
        assert(tok@ =~= t);
        assert(r.deep_view() =~= pre.push(tok@));
        assert(r.deep_view() =~= pre + seq![t]);
        assert(r.deep_view() == split_on_space(s@));
    }
    r
}

/// Whether some element of `v` views as `x`.
fn contains_string(v: &Vec<String>, x: &String) -> (r: bool)
    ensures
        r == v.deep_view().contains(x@),
{
    let n = v.len();
    let mut i: usize = 0;
    while i < n
        invariant
            i <= n,
            n == v@.len(),
            forall|k: int| 0 <= k < i ==> v.deep_view()[k] != x@,
        decreases n - i,
    {
        if v[i] == *x {
            proof {
                assert(v.deep_view()[i as int] == x@);
            }
            return true;
        }
        i += 1;
    }
    proof {
        if v.deep_view().contains(x@) {
            let k = choose|k: int| 0 <= k < v.deep_view().len() && v.deep_view()[k] == x@;
            assert(v.deep_view()[k] != x@);
        }
    }
    false
}

/// The first occurrences of `toks`, in order.
fn dedup_tokens(toks: Vec<String>) -> (r: Vec<String>)
    ensures
        r.deep_view() == distinct_in_order(toks.deep_view()),
{
    let n = toks.len();
    let mut r: Vec<String> = Vec::new();
    proof {
        assert(toks.deep_view().take(0) =~= Seq::<Seq<char>>::empty());
        assert(r.deep_view() =~= distinct_in_order(toks.deep_view().take(0)));
    }
    let mut i: usize = 0;
    while i < n
        invariant
            i <= n,
            n == toks@.len(),
            r.deep_view() == distinct_in_order(toks.deep_view().take(i as int)),
        decreases n - i,
    {
        let t = &toks[i];
        let seen = contains_string(&r, t);
        proof {
            let dv = toks.deep_view();
            assert(dv.take(i + 1).drop_last() =~= dv.take(i as int));
            assert(dv.take(i + 1).last() == dv[i as int]);
            assert(dv[i as int] == t@);
            lemma_distinct_membership(dv.take(i as int), t@);
        }
        if !seen {
            let ghost pre = r.deep_view();
            r.push(t.clone());
            proof {
                assert(r.deep_view() =~= pre.push(t@));
            }
        }
        i += 1;
    }
    proof {
        assert(toks.deep_view().take(n as int) =~= toks.deep_view());
    }
    r
}

/// The payload of an element node: a tag name and its attributes.
#[derive(Debug)]
pub struct ElementData {
    pub tag_name: String,
    pub attributes: AttrMap,
}

/// What a node holds: raw text, an element, or a comment.
#[derive(Debug)]
pub enum NodeType {
    Text(String),
    Element(ElementData),
    Comment(String),
}

/// A tree node: its content and the ordered children it owns.
#[derive(Debug)]
pub struct Node {
    pub children: Vec<Node>,
    pub node_type: NodeType,
}

/// The class tokens of `e`, first occurrences in order: the `"class"`
/// attribute value split on the literal space character, or nothing when the
/// attribute is absent.
pub open spec fn class_tokens(e: ElementData) -> Seq<Seq<char>> {
    match spec_lookup(e.attributes@, "class"@) {
        Some(v) => distinct_in_order(split_on_space(v)),
        None => Seq::empty(),
    }
}

/// The set of class tokens of `e`.
pub open spec fn class_token_set(e: ElementData) -> Set<Seq<char>> {
    match spec_lookup(e.attributes@, "class"@) {
        Some(v) => split_on_space(v).to_set(),
        None => Set::empty(),
    }
}

impl ElementData {
    /// An element payload from a tag name and an attribute map; any strings
    /// are accepted.
    pub fn new(tag_name: String, attributes: AttrMap) -> (e: ElementData)
        ensures
            e.tag_name == tag_name,
            e.attributes == attributes,
    {
        ElementData { tag_name, attributes }
    }

    /// The value of the `"id"` attribute, if present.
    pub fn get_id(&self) -> (r: Option<&String>)
        ensures
            match r {
                Some(v) => spec_lookup(self.attributes@, "id"@) == Some(v@),
                None => spec_lookup(self.attributes@, "id"@) is None,
            },
    {
        self.attributes.get("id")
    }

    /// The whitespace-separated tokens of the `"class"` attribute value, each
    /// once, in first-occurrence order; empty when the attribute is absent.
    /// Splitting is on the literal space character only.
    pub fn get_classes(&self) -> (r: Vec<String>)
        ensures
            r.deep_view() == class_tokens(*self),
            r.deep_view().to_set() == class_token_set(*self),
            r.deep_view().no_duplicates(),
    {
        match self.attributes.get("class") {
            Some(v) => {
                let toks = split_spaces(v.as_str());
                let r = dedup_tokens(toks);
                proof {
                    lemma_distinct_to_set(split_on_space(v@));
                    lemma_distinct_no_duplicates(split_on_space(v@));
                }
                r
            },
            None => {
                let r: Vec<String> = Vec::new();
                proof {
                    assert(r.deep_view() =~= Seq::<Seq<char>>::empty());
                    assert(r.deep_view().to_set() =~= Set::<Seq<char>>::empty());
                }
                r
            },
        }
    }
}

impl Node {
    /// A node from its content and an already-built sequence of children,
    /// which it takes ownership of.
    pub fn new(node_type: NodeType, children: Vec<Node>) -> (n: Node)
        ensures
            n.node_type == node_type,
            n.children == children,
    {
        Node { children, node_type }
    }
}

/// A childless text node.
pub fn text(data: String) -> (n: Node)
    ensures
        n.node_type == NodeType::Text(data),
        n.children@ == Seq::<Node>::empty(),
{
    let n = Node { children: Vec::new(), node_type: NodeType::Text(data) };
    proof {
        assert(n.children@ =~= Seq::<Node>::empty());
    }
    n
}

/// An element node from a tag name, attributes and children.
pub fn elem(name: String, attrs: AttrMap, children: Vec<Node>) -> (n: Node)
    ensures
        n.node_type == NodeType::Element(ElementData { tag_name: name, attributes: attrs }),
        n.children == children,
{
    Node { children, node_type: NodeType::Element(ElementData { tag_name: name, attributes: attrs }) }
}

} // verus!
