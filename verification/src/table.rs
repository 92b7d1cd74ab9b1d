//! Tables: values under names, each name once, in the order of the names.
use vstd::prelude::*;

use crate::text::{chars_of, eq_nocase, same_nocase, same_text};

verus! {

/// The order of texts, character by character.
pub open spec fn before(a: Seq<char>, b: Seq<char>) -> bool
    decreases a.len(),
{
    if b.len() == 0 {
        false
    } else if a.len() == 0 {
        true
    } else if a[0] != b[0] {
        (a[0] as u32) < (b[0] as u32)
    } else {
        before(a.skip(1), b.skip(1))
    }
}

/// A text does not stand before itself.
pub proof fn law_before_irreflexive(a: Seq<char>)
    ensures
        !before(a, a),
    decreases a.len(),
{
    if a.len() > 0 {
        law_before_irreflexive(a.skip(1));
    }
}

proof fn lemma_codes(c: char, d: char)
    requires
        c != d,
    ensures
        c as u32 != d as u32,
{
}

/// Of two different texts, one stands before the other.
pub proof fn law_before_total(a: Seq<char>, b: Seq<char>)
    ensures
        before(a, b) || before(b, a) || a == b,
    decreases a.len(),
{
    if a.len() == 0 {
        if b.len() == 0 {
            assert(a =~= b);
        }
    } else if b.len() > 0 && a[0] == b[0] {
        law_before_total(a.skip(1), b.skip(1));
        if a.skip(1) == b.skip(1) {
            assert(a =~= seq![a[0]] + a.skip(1));
            assert(b =~= seq![b[0]] + b.skip(1));
        }
    } else if b.len() > 0 {
        lemma_codes(a[0], b[0]);
    }
}

/// The order of texts is transitive.
pub proof fn law_before_transitive(a: Seq<char>, b: Seq<char>, c: Seq<char>)
    requires
        before(a, b),
        before(b, c),
    ensures
        before(a, c),
    decreases a.len(),
{
    if a.len() > 0 && a[0] == b[0] && b[0] == c[0] {
        law_before_transitive(a.skip(1), b.skip(1), c.skip(1));
    }
}

/// Whether `a` stands before `b`.
pub fn precedes(a: &[char], b: &[char]) -> (r: bool)
    ensures
        r == before(a@, b@),
{
    let mut i: usize = 0;
    assert(a@.skip(0) =~= a@);
    assert(b@.skip(0) =~= b@);
    while i < a.len() && i < b.len() && a[i] == b[i]
        invariant
            i <= a@.len(),
            i <= b@.len(),
            before(a@.skip(i as int), b@.skip(i as int)) == before(a@, b@),
        decreases a@.len() - i,
    {
        assert(a@.skip(i as int).skip(1) =~= a@.skip(i + 1));
        assert(b@.skip(i as int).skip(1) =~= b@.skip(i + 1));
        i = i + 1;
    }
    if i >= b.len() {
        false
    } else if i >= a.len() {
        true
    } else {
        (a[i] as u32) < (b[i] as u32)
    }
}

/// Whether names stand in order, each once.
pub open spec fn in_name_order<V>(entries: Seq<(Seq<char>, V)>) -> bool {
    forall|i: int, j: int|
        0 <= i < j < entries.len() ==> before(
            (#[trigger] entries[i]).0,
            (#[trigger] entries[j]).0,
        )
}

/// The value under `name`.
pub open spec fn value<V>(entries: Seq<(Seq<char>, V)>, name: Seq<char>) -> Option<V>
    decreases entries.len(),
{
    if entries.len() == 0 {
        None
    } else if entries[0].0 == name {
        Some(entries[0].1)
    } else {
        value(entries.skip(1), name)
    }
}

/// The first value under a name that is `name` but for the case of letters.
pub open spec fn value_nocase<V>(entries: Seq<(Seq<char>, V)>, name: Seq<char>) -> Option<V>
    decreases entries.len(),
{
    if entries.len() == 0 {
        None
    } else if same_nocase(entries[0].0, name) {
        Some(entries[0].1)
    } else {
        value_nocase(entries.skip(1), name)
    }
}

/// The entries with `v` under `name`.
pub open spec fn put<V>(entries: Seq<(Seq<char>, V)>, name: Seq<char>, v: V) -> Seq<(Seq<char>, V)>
    decreases entries.len(),
{
    if entries.len() == 0 || before(name, entries[0].0) {
        seq![(name, v)] + entries
    } else if entries[0].0 == name {
        seq![(name, v)] + entries.skip(1)
    } else {
        seq![entries[0]] + put(entries.skip(1), name, v)
    }
}

/// The entries without the one under `name`.
pub open spec fn without<V>(entries: Seq<(Seq<char>, V)>, name: Seq<char>) -> Seq<(Seq<char>, V)>
    decreases entries.len(),
{
    if entries.len() == 0 {
        entries
    } else if entries[0].0 == name {
        entries.skip(1)
    } else {
        seq![entries[0]] + without(entries.skip(1), name)
    }
}

/// The entries without the first whose name is `name` but for the case of letters.
pub open spec fn without_nocase<V>(entries: Seq<(Seq<char>, V)>, name: Seq<char>) -> Seq<
    (Seq<char>, V),
>
    decreases entries.len(),
{
    if entries.len() == 0 {
        entries
    } else if same_nocase(entries[0].0, name) {
        entries.skip(1)
    } else {
        seq![entries[0]] + without_nocase(entries.skip(1), name)
    }
}

/// The names of entries.
pub open spec fn names<V>(entries: Seq<(Seq<char>, V)>) -> Seq<Seq<char>> {
    entries.map_values(|e: (Seq<char>, V)| e.0)
}

proof fn lemma_in_order_rest<V>(entries: Seq<(Seq<char>, V)>)
    requires
        in_name_order(entries),
        entries.len() > 0,
    ensures
        in_name_order(entries.skip(1)),
{
    let rest = entries.skip(1);
    assert forall|i: int, j: int| 0 <= i < j < rest.len() implies before(
        (#[trigger] rest[i]).0,
        (#[trigger] rest[j]).0,
    ) by {
        assert(rest[i] == entries[i + 1] && rest[j] == entries[j + 1]);
    }
}

/// Where `put` puts an entry: at `i`, before which stand the smaller names only.
proof fn lemma_put<V>(entries: Seq<(Seq<char>, V)>, name: Seq<char>, v: V, i: int)
    requires
        in_name_order(entries),
        0 <= i <= entries.len(),
        forall|j: int| 0 <= j < i ==> before((#[trigger] entries[j]).0, name),
        i < entries.len() ==> !before(entries[i].0, name),
    ensures
        put(entries, name, v) == (if i < entries.len() && entries[i].0 == name {
            entries.update(i, (name, v))
        } else {
            entries.insert(i, (name, v))
        }),
        in_name_order(put(entries, name, v)),
    decreases entries.len(),
{
    let out = put(entries, name, v);
    if i == 0 {
        if entries.len() > 0 {
            law_before_total(entries[0].0, name);
            law_before_irreflexive(name);
        }
        if entries.len() > 0 && entries[0].0 == name {
            assert(out =~= entries.update(0, (name, v)));
        } else {
            assert(out =~= entries.insert(0, (name, v)));
        }
    } else {
        assert(before(entries[0].0, name));
        law_before_irreflexive(name);
        if before(name, entries[0].0) {
            law_before_transitive(name, entries[0].0, name);
        }
        let rest = entries.skip(1);
        lemma_in_order_rest(entries);
        assert forall|j: int| 0 <= j < i - 1 implies before((#[trigger] rest[j]).0, name) by {
            assert(rest[j] == entries[j + 1]);
        }
        lemma_put(rest, name, v, i - 1);
        if i < entries.len() && entries[i].0 == name {
            assert(out =~= entries.update(i, (name, v)));
        } else {
            assert(out =~= entries.insert(i, (name, v)));
        }
    }
    let replaced = i < entries.len() && entries[i].0 == name;
    assert forall|a: int, b: int| 0 <= a < b < out.len() implies before(
        (#[trigger] out[a]).0,
        (#[trigger] out[b]).0,
    ) by {
        if replaced {
            assert(entries[a].0 == out[a].0 && entries[b].0 == out[b].0);
        } else {
            if i < entries.len() {
                law_before_total(entries[i].0, name);
            }
            if b < i {
                assert(out[a] == entries[a] && out[b] == entries[b]);
            } else if a > i {
                assert(out[a] == entries[a - 1] && out[b] == entries[b - 1]);
            } else if b == i {
                assert(out[a] == entries[a]);
            } else if a == i {
                assert(out[b] == entries[b - 1]);
                if b - 1 > i {
                    assert(before(entries[i].0, entries[b - 1].0));
                    law_before_transitive(name, entries[i].0, entries[b - 1].0);
                }
            } else {
                assert(out[a] == entries[a] && out[b] == entries[b - 1]);
            }
        }
    }
}

proof fn lemma_place<V>(entries: Seq<(Seq<char>, V)>, name: Seq<char>, i: int) -> (r: int)
    requires
        0 <= i <= entries.len(),
        forall|j: int| 0 <= j < i ==> before((#[trigger] entries[j]).0, name),
    ensures
        0 <= r <= entries.len(),
        forall|j: int| 0 <= j < r ==> before((#[trigger] entries[j]).0, name),
        r < entries.len() ==> !before(entries[r].0, name),
    decreases entries.len() - i,
{
    if i < entries.len() && before(entries[i].0, name) {
        lemma_place(entries, name, i + 1)
    } else {
        i
    }
}

/// Putting a value keeps the names in order, each once.
pub proof fn law_put_in_order<V>(entries: Seq<(Seq<char>, V)>, name: Seq<char>, v: V)
    requires
        in_name_order(entries),
    ensures
        in_name_order(put(entries, name, v)),
{
    let i = lemma_place(entries, name, 0);
    lemma_put(entries, name, v, i);
}

/// What was put under a name is found there; what stands under other names stays.
pub proof fn law_put_value<V>(entries: Seq<(Seq<char>, V)>, name: Seq<char>, v: V, other: Seq<char>)
    requires
        in_name_order(entries),
    ensures
        value(put(entries, name, v), name) == Some(v),
        other != name ==> value(put(entries, name, v), other) == value(entries, other),
    decreases entries.len(),
{
    let out = put(entries, name, v);
    if entries.len() == 0 || before(name, entries[0].0) {
        assert(out.skip(1) =~= entries);
    } else if entries[0].0 == name {
        assert(out.skip(1) =~= entries.skip(1));
    } else {
        lemma_in_order_rest(entries);
        law_put_value(entries.skip(1), name, v, other);
        assert(out.skip(1) =~= put(entries.skip(1), name, v));
    }
}

proof fn lemma_not_among<V>(entries: Seq<(Seq<char>, V)>, name: Seq<char>)
    requires
        forall|i: int| 0 <= i < entries.len() ==> (#[trigger] entries[i]).0 != name,
    ensures
        value(entries, name) is None,
    decreases entries.len(),
{
    if entries.len() > 0 {
        lemma_not_among(entries.skip(1), name);
    }
}

/// Nothing is found under a name that was taken out; what stands under other names stays.
pub proof fn law_without_value<V>(entries: Seq<(Seq<char>, V)>, name: Seq<char>, other: Seq<char>)
    requires
        in_name_order(entries),
    ensures
        value(without(entries, name), name) is None,
        other != name ==> value(without(entries, name), other) == value(entries, other),
    decreases entries.len(),
{
    if entries.len() > 0 {
        let rest = entries.skip(1);
        if entries[0].0 == name {
            assert forall|i: int| 0 <= i < rest.len() implies (#[trigger] rest[i]).0 != name by {
                assert(before(entries[0].0, entries[i + 1].0));
                law_before_irreflexive(name);
            }
            lemma_not_among(rest, name);
        } else {
            lemma_in_order_rest(entries);
            law_without_value(rest, name, other);
            assert(without(entries, name).skip(1) =~= without(rest, name));
        }
    }
}

/// Putting a value under a name that no other name is like leaves what is found under other names.
pub proof fn law_put_nocase<V>(entries: Seq<(Seq<char>, V)>, name: Seq<char>, v: V, other: Seq<char>)
    requires
        value_nocase(entries, name) is None,
    ensures
        same_nocase(name, other) ==> value_nocase(put(entries, name, v), other) == Some(v),
        !same_nocase(name, other) ==> value_nocase(put(entries, name, v), other) == value_nocase(
            entries,
            other,
        ),
    decreases entries.len(),
{
    let out = put(entries, name, v);
    if entries.len() == 0 || before(name, entries[0].0) {
        assert(out.skip(1) =~= entries);
    } else if entries[0].0 == name {
    } else {
        law_put_nocase(entries.skip(1), name, v, other);
        assert(out.skip(1) =~= put(entries.skip(1), name, v));
    }
}

/// Every entry is the one that was put or one that stood there before.
pub proof fn lemma_put_entries<V>(entries: Seq<(Seq<char>, V)>, name: Seq<char>, v: V)
    ensures
        forall|i: int|
            0 <= i < put(entries, name, v).len() ==> (#[trigger] put(entries, name, v)[i]) == (name, v)
                || entries.contains(put(entries, name, v)[i]),
    decreases entries.len(),
{
    let out = put(entries, name, v);
    assert forall|i: int| 0 <= i < out.len() implies (#[trigger] out[i]) == (name, v)
        || entries.contains(out[i]) by {
        if entries.len() == 0 || before(name, entries[0].0) {
            if i > 0 {
                assert(out[i] == entries[i - 1]);
            }
        } else if entries[0].0 == name {
            if i > 0 {
                assert(out[i] == entries[i]);
            }
        } else {
            let rest = entries.skip(1);
            lemma_put_entries(rest, name, v);
            if i == 0 {
                assert(out[0] == entries[0]);
            } else {
                assert(out[i] == put(rest, name, v)[i - 1]);
                if rest.contains(out[i]) {
                    let k = choose|k: int| 0 <= k < rest.len() && rest[k] == out[i];
                    assert(entries[k + 1] == out[i]);
                }
            }
        }
    }
}

/// Putting entries one after the other, in their order, builds them up.
pub proof fn lemma_put_last<V>(entries: Seq<(Seq<char>, V)>, name: Seq<char>, v: V)
    requires
        forall|j: int| 0 <= j < entries.len() ==> before((#[trigger] entries[j]).0, name),
    ensures
        put(entries, name, v) == entries.push((name, v)),
    decreases entries.len(),
{
    if entries.len() > 0 {
        assert(before(entries[0].0, name));
        law_before_irreflexive(name);
        if before(name, entries[0].0) {
            law_before_transitive(name, entries[0].0, name);
        }
        let rest = entries.skip(1);
        assert forall|j: int| 0 <= j < rest.len() implies before((#[trigger] rest[j]).0, name) by {
            assert(rest[j] == entries[j + 1]);
        }
        lemma_put_last(rest, name, v);
    }
    assert(put(entries, name, v) =~= entries.push((name, v)));
}

/// Values under names.
#[derive(Debug, Clone)]
pub struct Table<V> {
    entries: Vec<(String, V)>,
}

impl<V: View> View for Table<V> {
    type V = Seq<(Seq<char>, V::V)>;

    closed spec fn view(&self) -> Seq<(Seq<char>, V::V)> {
        self.entries@.map_values(|e: (String, V)| (e.0@, e.1@))
    }
}

impl<V: View> Table<V> {
    /// What holds of every table: its names stand in order, each once.
    pub open spec fn inv(&self) -> bool {
        in_name_order(self@)
    }

    pub fn new() -> (r: Self)
        ensures
            r@ == Seq::<(Seq<char>, V::V)>::empty(),
            r.inv(),
    {
        let r = Table { entries: Vec::new() };
        assert(r@ =~= Seq::<(Seq<char>, V::V)>::empty());
        r
    }

    pub fn len(&self) -> (r: usize)
        ensures
            r == self@.len(),
    {
        self.entries.len()
    }

    pub fn is_empty(&self) -> (r: bool)
        ensures
            r == (self@.len() == 0),
    {
        self.entries.len() == 0
    }

    /// The name at an index.
    pub fn name_at(&self, i: usize) -> (r: &str)
        requires
            i < self@.len(),
        ensures
            r@ == self@[i as int].0,
    {
        self.entries[i].0.as_str()
    }

    /// The value at an index.
    pub fn value_at(&self, i: usize) -> (r: &V)
        requires
            i < self@.len(),
        ensures
            r@ == self@[i as int].1,
    {
        &self.entries[i].1
    }

    /// Where a name stands or would stand.
    fn place(&self, name: &[char]) -> (r: usize)
        requires
            self.inv(),
        ensures
            r <= self@.len(),
            forall|j: int| 0 <= j < r ==> before((#[trigger] self@[j]).0, name@),
            r < self@.len() ==> !before(self@[r as int].0, name@),
    {
        let mut i: usize = 0;
        while i < self.entries.len()
            invariant
                i <= self.entries@.len(),
                forall|j: int| 0 <= j < i ==> before((#[trigger] self@[j]).0, name@),
            decreases self.entries@.len() - i,
        {
            let key = chars_of(self.entries[i].0.as_str());
            assert(self@[i as int].0 == key@);
            if !precedes(key.as_slice(), name) {
                return i;
            }
            i = i + 1;
        }
        i
    }

    /// Puts a value under a name, in place of the one that stood there.
    pub fn insert(&mut self, name: String, v: V)
        requires
            old(self).inv(),
        ensures
            final(self).inv(),
            final(self)@ == put(old(self)@, name@, v@),
    {
        let key = chars_of(name.as_str());
        let i = self.place(key.as_slice());
        let ghost was = self@;
        proof {
            lemma_put(was, name@, v@, i as int);
        }
        if i < self.entries.len() && same_text(
            chars_of(self.entries[i].0.as_str()).as_slice(),
            key.as_slice(),
        ) {
            self.entries.set(i, (name, v));
            assert(self@ =~= was.update(i as int, (name@, v@)));
        } else {
            self.entries.insert(i, (name, v));
            assert(self@ =~= was.insert(i as int, (name@, v@)));
        }
    }

    /// The value under a name.
    pub fn get(&self, name: &str) -> (r: Option<&V>)
        ensures
            match r {
                Some(v) => value(self@, name@) == Some(v@),
                None => value(self@, name@) is None,
            },
    {
        let key = chars_of(name);
        let mut i: usize = 0;
        assert(self@.skip(0) =~= self@);
        while i < self.entries.len()
            invariant
                i <= self.entries@.len(),
                self@.len() == self.entries@.len(),
                key@ == name@,
                value(self@.skip(i as int), name@) == value(self@, name@),
            decreases self.entries@.len() - i,
        {
            assert(self@.skip(i as int).skip(1) =~= self@.skip(i + 1));
            assert(self@.skip(i as int)[0] == self@[i as int]);
            if same_text(chars_of(self.entries[i].0.as_str()).as_slice(), key.as_slice()) {
                return Some(&self.entries[i].1);
            }
            i = i + 1;
        }
        None
    }

    /// Whether there is a value under a name.
    pub fn contains(&self, name: &str) -> (r: bool)
        ensures
            r == (value(self@, name@) is Some),
    {
        self.get(name).is_some()
    }

    /// The first value under a name that is the given one but for the case of letters.
    pub fn get_nocase(&self, name: &str) -> (r: Option<&V>)
        ensures
            match r {
                Some(v) => value_nocase(self@, name@) == Some(v@),
                None => value_nocase(self@, name@) is None,
            },
    {
        let key = chars_of(name);
        let mut i: usize = 0;
        assert(self@.skip(0) =~= self@);
        while i < self.entries.len()
            invariant
                i <= self.entries@.len(),
                self@.len() == self.entries@.len(),
                key@ == name@,
                value_nocase(self@.skip(i as int), name@) == value_nocase(self@, name@),
            decreases self.entries@.len() - i,
        {
            assert(self@.skip(i as int).skip(1) =~= self@.skip(i + 1));
            assert(self@.skip(i as int)[0] == self@[i as int]);
            if eq_nocase(chars_of(self.entries[i].0.as_str()).as_slice(), key.as_slice()) {
                return Some(&self.entries[i].1);
            }
            i = i + 1;
        }
        None
    }

    /// Takes away the entry under a name.
    pub fn remove(&mut self, name: &str)
        requires
            old(self).inv(),
        ensures
            final(self).inv(),
            final(self)@ == without(old(self)@, name@),
    {
        let key = chars_of(name);
        let ghost was = self@;
        let mut i: usize = 0;
        assert(was.skip(0) =~= was);
        assert(was.take(0) + without(was, name@) =~= without(was, name@));
        while i < self.entries.len()
            invariant
                i <= self.entries@.len(),
                was == self@,
                self.inv(),
                was == old(self)@,
                was.len() == self.entries@.len(),
                key@ == name@,
                was.take(i as int) + without(was.skip(i as int), name@) == without(was, name@),
            decreases self.entries@.len() - i,
        {
            assert(was.skip(i as int).skip(1) =~= was.skip(i + 1));
            assert(was.skip(i as int)[0] == was[i as int]);
            if same_text(chars_of(self.entries[i].0.as_str()).as_slice(), key.as_slice()) {
                self.remove_at(i);
                return;
            }
            proof {
                let rest = without(was.skip(i + 1), name@);
                assert(was.take(i as int) + (seq![was[i as int]] + rest) =~= was.take(i + 1) + rest);
            }
            i = i + 1;
        }
        assert(was.take(was.len() as int) + without(was.skip(was.len() as int), name@) =~= was);
    }

    fn remove_at(&mut self, i: usize)
        requires
            old(self).inv(),
            i < old(self)@.len(),
        ensures
            final(self).inv(),
            final(self)@ == old(self)@.take(i as int) + old(self)@.skip(i + 1),
    {
        let ghost was = self@;
        self.entries.remove(i);
        assert(self@ =~= was.take(i as int) + was.skip(i + 1));
        assert forall|a: int, b: int| 0 <= a < b < self@.len() implies before(
            (#[trigger] self@[a]).0,
            (#[trigger] self@[b]).0,
        ) by {
            let x = if a < i { a } else { a + 1 };
            let y = if b < i { b } else { b + 1 };
            assert(self@[a] == was[x] && self@[b] == was[y]);
        }
    }

    /// Takes away the first entry whose name is the given one but for the case of letters.
    pub fn remove_nocase(&mut self, name: &str)
        requires
            old(self).inv(),
        ensures
            final(self).inv(),
            final(self)@ == without_nocase(old(self)@, name@),
    {
        let key = chars_of(name);
        let ghost was = self@;
        let mut i: usize = 0;
        assert(was.skip(0) =~= was);
        assert(was.take(0) + without_nocase(was, name@) =~= without_nocase(was, name@));
        while i < self.entries.len()
            invariant
                i <= self.entries@.len(),
                was == self@,
                self.inv(),
                was == old(self)@,
                was.len() == self.entries@.len(),
                key@ == name@,
                was.take(i as int) + without_nocase(was.skip(i as int), name@) == without_nocase(
                    was,
                    name@,
                ),
            decreases self.entries@.len() - i,
        {
            assert(was.skip(i as int).skip(1) =~= was.skip(i + 1));
            assert(was.skip(i as int)[0] == was[i as int]);
            if eq_nocase(chars_of(self.entries[i].0.as_str()).as_slice(), key.as_slice()) {
                self.remove_at(i);
                return;
            }
            proof {
                let rest = without_nocase(was.skip(i + 1), name@);
                assert(was.take(i as int) + (seq![was[i as int]] + rest) =~= was.take(i + 1) + rest);
            }
            i = i + 1;
        }
        assert(was.take(was.len() as int) + without_nocase(was.skip(was.len() as int), name@) =~= was);
    }
}


impl Table<String> {
    /// The same entries once more.
    pub fn copy(&self) -> (r: Self)
        requires
            self.inv(),
        ensures
            r.inv(),
            r@ == self@,
    {
        let mut entries: Vec<(String, String)> = Vec::new();
        let mut i: usize = 0;
        while i < self.entries.len()
            invariant
                i <= self.entries@.len(),
                entries@.len() == i,
                forall|j: int|
                    0 <= j < i ==> (#[trigger] entries@[j]).0@ == self.entries@[j].0@ && entries@[j].1@
                        == self.entries@[j].1@,
            decreases self.entries@.len() - i,
        {
            entries.push(
                (self.entries[i].0.as_str().to_owned(), self.entries[i].1.as_str().to_owned()),
            );
            i = i + 1;
        }
        let r = Table { entries };
        assert(r@ =~= self@);
        r
    }
}

/// Every entry of a table is found under its own name.
pub proof fn law_value_found<V>(entries: Seq<(Seq<char>, V)>, i: int)
    requires
        in_name_order(entries),
        0 <= i < entries.len(),
    ensures
        value(entries, entries[i].0) == Some(entries[i].1),
    decreases entries.len(),
{
    if i > 0 {
        assert(before(entries[0].0, entries[i].0));
        law_before_irreflexive(entries[i].0);
        lemma_in_order_rest(entries);
        law_value_found(entries.skip(1), i - 1);
    }
}

/// What is found under a name stands there, before any other entry under that name; where nothing is found, no entry
/// has the name.
pub proof fn law_value_stands<V>(entries: Seq<(Seq<char>, V)>, name: Seq<char>)
    ensures
        match value(entries, name) {
            Some(v) => exists|i: int|
                0 <= i < entries.len() && #[trigger] entries[i] == (name, v) && forall|j: int|
                    0 <= j < i ==> (#[trigger] entries[j]).0 != name,
            None => forall|i: int| 0 <= i < entries.len() ==> (#[trigger] entries[i]).0 != name,
        },
    decreases entries.len(),
{
    if entries.len() > 0 {
        let rest = entries.skip(1);
        if entries[0].0 == name {
            assert(entries[0] == (name, entries[0].1));
        } else {
            law_value_stands(rest, name);
            match value(rest, name) {
                Some(v) => {
                    let i = choose|i: int|
                        0 <= i < rest.len() && #[trigger] rest[i] == (name, v) && forall|j: int|
                            0 <= j < i ==> (#[trigger] rest[j]).0 != name;
                    assert(entries[i + 1] == (name, v));
                    assert forall|j: int| 0 <= j < i + 1 implies (#[trigger] entries[j]).0 != name by {
                        if j > 0 {
                            assert(rest[j - 1] == entries[j]);
                        }
                    }
                },
                None => {
                    assert forall|i: int| 0 <= i < entries.len() implies (#[trigger] entries[i]).0 != name by {
                        if i > 0 {
                            assert(rest[i - 1] == entries[i]);
                        }
                    }
                },
            }
        }
    }
}

/// What is found under a name, whatever the case of letters, stands there before any other entry with a name like it;
/// where nothing is found, no entry has such a name.
pub proof fn law_value_nocase_stands<V>(entries: Seq<(Seq<char>, V)>, name: Seq<char>)
    ensures
        match value_nocase(entries, name) {
            Some(v) => exists|i: int|
                0 <= i < entries.len() && same_nocase((#[trigger] entries[i]).0, name) && entries[i].1 == v && forall|
                    j: int,
                |
                    0 <= j < i ==> !same_nocase((#[trigger] entries[j]).0, name),
            None => forall|i: int| 0 <= i < entries.len() ==> !same_nocase((#[trigger] entries[i]).0, name),
        },
    decreases entries.len(),
{
    if entries.len() > 0 {
        let rest = entries.skip(1);
        if same_nocase(entries[0].0, name) {
            assert(same_nocase(entries[0].0, name));
        } else {
            law_value_nocase_stands(rest, name);
            match value_nocase(rest, name) {
                Some(v) => {
                    let i = choose|i: int|
                        0 <= i < rest.len() && same_nocase((#[trigger] rest[i]).0, name) && rest[i].1 == v && forall|
                            j: int,
                        |
                            0 <= j < i ==> !same_nocase((#[trigger] rest[j]).0, name);
                    assert(entries[i + 1] == rest[i]);
                    assert forall|j: int| 0 <= j < i + 1 implies !same_nocase((#[trigger] entries[j]).0, name) by {
                        if j > 0 {
                            assert(rest[j - 1] == entries[j]);
                        }
                    }
                },
                None => {
                    assert forall|i: int| 0 <= i < entries.len() implies !same_nocase((#[trigger] entries[i]).0, name) by {
                        if i > 0 {
                            assert(rest[i - 1] == entries[i]);
                        }
                    }
                },
            }
        }
    }
}

/// Taking an entry out keeps the names in order.
pub proof fn law_without_in_order<V>(entries: Seq<(Seq<char>, V)>, name: Seq<char>)
    requires
        in_name_order(entries),
    ensures
        in_name_order(without(entries, name)),
        forall|i: int|
            0 <= i < without(entries, name).len() ==> entries.contains(#[trigger] without(entries, name)[i]),
    decreases entries.len(),
{
    let out = without(entries, name);
    if entries.len() > 0 {
        let rest = entries.skip(1);
        lemma_in_order_rest(entries);
        if entries[0].0 == name {
            assert forall|i: int| 0 <= i < out.len() implies entries.contains(#[trigger] out[i]) by {
                assert(out[i] == entries[i + 1]);
            }
        } else {
            law_without_in_order(rest, name);
            let more = without(rest, name);
            assert forall|i: int| 0 <= i < out.len() implies entries.contains(#[trigger] out[i]) by {
                if i > 0 {
                    assert(out[i] == more[i - 1]);
                    assert(rest.contains(more[i - 1]));
                    let x = choose|x: int| 0 <= x < rest.len() && rest[x] == more[i - 1];
                    assert(entries[x + 1] == out[i]);
                } else {
                    assert(out[0] == entries[0]);
                }
            }
            assert forall|i: int, j: int| 0 <= i < j < out.len() implies before(
                (#[trigger] out[i]).0,
                (#[trigger] out[j]).0,
            ) by {
                assert(out[j] == more[j - 1]);
                if i > 0 {
                    assert(out[i] == more[i - 1]);
                } else {
                    assert(rest.contains(more[j - 1]));
                    let x = choose|x: int| 0 <= x < rest.len() && rest[x] == more[j - 1];
                    assert(entries[x + 1] == out[j]);
                }
            }
        }
    }
}

/// Without an entry whose name is like another but for the case of letters, all entries stay; else the first such entry
/// is taken out, and no other.
pub proof fn law_without_nocase<V>(entries: Seq<(Seq<char>, V)>, name: Seq<char>, k: int)
    ensures
        0 <= k < entries.len() && same_nocase(entries[k].0, name) && (forall|j: int|
            0 <= j < k ==> !same_nocase((#[trigger] entries[j]).0, name)) ==> without_nocase(entries, name)
            == entries.take(k) + entries.skip(k + 1),
        (forall|j: int| 0 <= j < entries.len() ==> !same_nocase((#[trigger] entries[j]).0, name)) ==> without_nocase(
            entries,
            name,
        ) == entries,
    decreases entries.len(),
{
    if entries.len() > 0 {
        let rest = entries.skip(1);
        law_without_nocase(rest, name, k - 1);
        assert forall|j: int| 0 <= j < rest.len() implies #[trigger] rest[j] == entries[j + 1] by {}
        if same_nocase(entries[0].0, name) {
            assert(entries.take(0) + entries.skip(1) =~= entries.skip(1));
        } else {
            if 0 <= k < entries.len() && same_nocase(entries[k].0, name) && forall|j: int|
                0 <= j < k ==> !same_nocase((#[trigger] entries[j]).0, name) {
                assert(rest[k - 1] == entries[k]);
                assert forall|j: int| 0 <= j < k - 1 implies !same_nocase((#[trigger] rest[j]).0, name) by {
                    assert(rest[j] == entries[j + 1]);
                }
                assert(seq![entries[0]] + (rest.take(k - 1) + rest.skip(k)) =~= entries.take(k) + entries.skip(k + 1));
            }
            if forall|j: int| 0 <= j < entries.len() ==> !same_nocase((#[trigger] entries[j]).0, name) {
                assert forall|j: int| 0 <= j < rest.len() implies !same_nocase((#[trigger] rest[j]).0, name) by {
                    assert(rest[j] == entries[j + 1]);
                }
                assert(seq![entries[0]] + rest =~= entries);
            }
        }
    }
}

}
