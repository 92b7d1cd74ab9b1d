//! Header fields of a message: values under names whose case does not matter.
use vstd::prelude::*;

use crate::table::{
    before, in_name_order, law_before_irreflexive, law_before_transitive, law_put_in_order, law_put_value,
    lemma_put_entries, lemma_put_last, put, value, Table,
};
use crate::text::{
    chars_of, find, find_char, lacks, lemma_find_is, lemma_find_none, lowered, push_text, string_of, to_lower, trim,
    trimmed,
};
use vstd::slice::slice_subrange;

verus! {

/// The values of one field, in the order in which they were added.
#[derive(Debug, Clone)]
pub struct FieldValues {
    items: Vec<String>,
}

impl View for FieldValues {
    type V = Seq<Seq<char>>;

    closed spec fn view(&self) -> Seq<Seq<char>> {
        self.items@.map_values(|s: String| s@)
    }
}

impl FieldValues {
    fn single(value: String) -> (r: Self)
        ensures
            r@ == seq![value@],
    {
        let mut items: Vec<String> = Vec::new();
        items.push(value);
        let r = FieldValues { items };
        assert(r@ =~= seq![value@]);
        r
    }

    pub fn len(&self) -> (r: usize)
        ensures
            r == self@.len(),
    {
        self.items.len()
    }

    pub fn at(&self, i: usize) -> (r: &str)
        requires
            i < self@.len(),
        ensures
            r@ == self@[i as int],
    {
        self.items[i].as_str()
    }

    fn copy(&self) -> (r: Self)
        ensures
            r@ == self@,
    {
        let mut items: Vec<String> = Vec::new();
        let mut i: usize = 0;
        while i < self.items.len()
            invariant
                i <= self.items@.len(),
                items@.len() == i,
                forall|j: int| 0 <= j < i ==> (#[trigger] items@[j])@ == self.items@[j]@,
            decreases self.items@.len() - i,
        {
            items.push(self.items[i].as_str().to_owned());
            i = i + 1;
        }
        let r = FieldValues { items };
        assert(r@ =~= self@);
        r
    }

    fn push(&mut self, value: String)
        ensures
            final(self)@ == old(self)@.push(value@),
    {
        let ghost was = self@;
        self.items.push(value);
        assert(self@ =~= was.push(value@));
    }
}

/// The fields of a message, by their names in lower case.
pub type Fields = Seq<(Seq<char>, Seq<Seq<char>>)>;

/// The fields with one value under a name, in place of those that stood there.
pub open spec fn with_field(h: Fields, name: Seq<char>, v: Seq<char>) -> Fields {
    put(h, lowered(name), seq![v])
}

/// The values under a name; none where it does not stand there.
pub open spec fn values_of(h: Fields, name: Seq<char>) -> Seq<Seq<char>> {
    match value(h, lowered(name)) {
        Some(v) => v,
        None => seq![],
    }
}

/// The fields with one value more under a name.
pub open spec fn with_more(h: Fields, name: Seq<char>, v: Seq<char>) -> Fields {
    put(h, lowered(name), values_of(h, name).push(v))
}

/// The first value under a name.
pub open spec fn field(h: Fields, name: Seq<char>) -> Option<Seq<char>> {
    match value(h, lowered(name)) {
        Some(v) => Some(v[0]),
        None => None,
    }
}

/// Whether names are in lower case, each with a value.
pub open spec fn is_kept(h: Fields) -> bool {
    forall|i: int|
        0 <= i < h.len() ==> lowered((#[trigger] h[i]).0) == h[i].0 && h[i].1.len() > 0
}

/// A field on the wire: a line for each of its values.
pub open spec fn field_wire(name: Seq<char>, values: Seq<Seq<char>>, n: int) -> Seq<char>
    decreases n,
{
    if n <= 0 {
        seq![]
    } else {
        field_wire(name, values, n - 1) + name + ": "@ + values[n - 1] + "\r\n"@
    }
}

/// The first `n` fields on the wire.
pub open spec fn fields_wire(h: Fields, n: int) -> Seq<char>
    decreases n,
{
    if n <= 0 {
        seq![]
    } else {
        fields_wire(h, n - 1) + field_wire(h[n - 1].0, h[n - 1].1, h[n - 1].1.len() as int)
    }
}

/// The name and the value in a header line.
pub open spec fn field_in(line: Seq<char>) -> Option<(Seq<char>, Seq<char>)> {
    match find(line, ':') {
        Some(i) => Some((trimmed(line.take(i)), trimmed(line.skip(i + 1)))),
        None => None,
    }
}

/// Reads a header line.
pub fn read_field<'a>(line: &'a [char]) -> (r: Option<(&'a [char], &'a [char])>)
    ensures
        match r {
            Some((name, v)) => field_in(line@) == Some((name@, v@)),
            None => field_in(line@) is None,
        },
{
    let end: usize = line.len();
    match find_char(line, ':') {
        Some(i) => {
            let name = slice_subrange(line, 0, i);
            let v = slice_subrange(line, i + 1, end);
            assert(name@ =~= line@.take(i as int));
            assert(v@ =~= line@.skip(i + 1));
            Some((trim(name), trim(v)))
        },
        None => None,
    }
}

proof fn lemma_lowered_twice(s: Seq<char>)
    ensures
        lowered(lowered(s)) == lowered(s),
{
    assert(lowered(lowered(s)) =~= lowered(s));
}

proof fn lemma_put_kept(h: Fields, name: Seq<char>, values: Seq<Seq<char>>)
    requires
        is_kept(h),
        values.len() > 0,
    ensures
        is_kept(put(h, lowered(name), values)),
{
    let out = put(h, lowered(name), values);
    lemma_put_entries(h, lowered(name), values);
    lemma_lowered_twice(name);
    assert forall|i: int| 0 <= i < out.len() implies lowered((#[trigger] out[i]).0) == out[i].0
        && out[i].1.len() > 0 by {
        if h.contains(out[i]) {
            let k = choose|k: int| 0 <= k < h.len() && h[k] == out[i];
            assert(lowered(h[k].0) == h[k].0);
        }
    }
}

proof fn lemma_value_kept(h: Fields, name: Seq<char>)
    requires
        is_kept(h),
    ensures
        value(h, name) matches Some(v) ==> v.len() > 0,
    decreases h.len(),
{
    if h.len() > 0 && h[0].0 != name {
        let rest = h.skip(1);
        assert forall|i: int| 0 <= i < rest.len() implies lowered((#[trigger] rest[i]).0) == rest[i].0
            && rest[i].1.len() > 0 by {
            assert(rest[i] == h[i + 1]);
        }
        lemma_value_kept(rest, name);
    }
}

/// The fields of a message.
#[derive(Debug, Clone)]
pub struct Headers {
    table: Table<FieldValues>,
}

impl View for Headers {
    type V = Fields;

    closed spec fn view(&self) -> Fields {
        self.table@
    }
}

fn lower_string(name: &str) -> (r: String)
    ensures
        r@ == lowered(name@),
{
    let c = chars_of(name);
    string_of(to_lower(c.as_slice()).as_slice())
}

impl Headers {
    /// What holds of all headers: names stand once, in lower case, each with a value.
    pub open spec fn inv(&self) -> bool {
        in_name_order(self@) && is_kept(self@)
    }

    pub fn new() -> (r: Self)
        ensures
            r.inv(),
            r@ == Seq::<(Seq<char>, Seq<Seq<char>>)>::empty(),
    {
        Headers { table: Table::new() }
    }

    /// Sets a field to one value.
    pub fn insert(&mut self, name: &str, value: &str)
        requires
            old(self).inv(),
        ensures
            final(self).inv(),
            final(self)@ == with_field(old(self)@, name@, value@),
    {
        proof {
            lemma_put_kept(self@, name@, seq![value@]);
        }
        self.table.insert(lower_string(name), FieldValues::single(value.to_owned()));
    }

    /// Adds a value to a field.
    pub fn append(&mut self, name: &str, value: &str)
        requires
            old(self).inv(),
        ensures
            final(self).inv(),
            final(self)@ == with_more(old(self)@, name@, value@),
    {
        proof {
            lemma_put_kept(self@, name@, values_of(self@, name@).push(value@));
        }
        let key = lower_string(name);
        let mut values = match self.table.get(key.as_str()) {
            Some(v) => v.copy(),
            None => {
                self.insert(name, value);
                assert(seq![value@] =~= Seq::<Seq<char>>::empty().push(value@));
                return;
            },
        };
        values.push(value.to_owned());
        self.table.insert(key, values);
    }

    /// The first value of a field.
    pub fn get(&self, name: &str) -> (r: Option<&str>)
        requires
            self.inv(),
        ensures
            match r {
                Some(v) => field(self@, name@) == Some(v@),
                None => field(self@, name@) is None,
            },
    {
        let key = lower_string(name);
        proof {
            lemma_value_kept(self@, lowered(name@));
        }
        match self.table.get(key.as_str()) {
            Some(values) => Some(values.at(0)),
            None => None,
        }
    }

    pub fn contains(&self, name: &str) -> (r: bool)
        requires
            self.inv(),
        ensures
            r == (field(self@, name@) is Some),
    {
        self.get(name).is_some()
    }

    pub fn len(&self) -> (r: usize)
        ensures
            r == self@.len(),
    {
        self.table.len()
    }

    pub fn name_at(&self, i: usize) -> (r: &str)
        requires
            i < self@.len(),
        ensures
            r@ == self@[i as int].0,
    {
        self.table.name_at(i)
    }

    pub fn values_at(&self, i: usize) -> (r: &FieldValues)
        requires
            i < self@.len(),
        ensures
            r@ == self@[i as int].1,
    {
        self.table.value_at(i)
    }

    /// The same fields once more.
    pub fn copy(&self) -> (r: Self)
        requires
            self.inv(),
        ensures
            r.inv(),
            r@ == self@,
    {
        let mut out: Table<FieldValues> = Table::new();
        let mut i: usize = 0;
        while i < self.table.len()
            invariant
                i <= self@.len(),
                self.inv(),
                out.inv(),
                out@ == self@.take(i as int),
            decreases self@.len() - i,
        {
            let name = self.table.name_at(i);
            proof {
                let was = self@.take(i as int);
                assert forall|j: int| 0 <= j < was.len() implies before(
                    (#[trigger] was[j]).0,
                    name@,
                ) by {
                    assert(before(self@[j].0, self@[i as int].0));
                }
                lemma_put_last(was, name@, self@[i as int].1);
                assert(was.push(self@[i as int]) =~= self@.take(i + 1));
            }
            out.insert(name.to_owned(), self.table.value_at(i).copy());
            i = i + 1;
        }
        assert(self@.take(self@.len() as int) =~= self@);
        Headers { table: out }
    }

    /// The fields as they stand on the wire.
    pub fn format(&self) -> (r: Vec<char>)
        ensures
            r@ == fields_wire(self@, self@.len() as int),
    {
        let mut out: Vec<char> = Vec::new();
        let mut i: usize = 0;
        while i < self.table.len()
            invariant
                i <= self@.len(),
                out@ == fields_wire(self@, i as int),
            decreases self@.len() - i,
        {
            let name = self.table.name_at(i);
            let values = self.table.value_at(i);
            let ghost base = out@;
            let mut k: usize = 0;
            assert(out@ =~= base + field_wire(name@, values@, 0));
            while k < values.len()
                invariant
                    k <= values@.len(),
                    out@ == base + field_wire(name@, values@, k as int),
                decreases values@.len() - k,
            {
                push_text(&mut out, name);
                push_text(&mut out, ": ");
                push_text(&mut out, values.at(k));
                push_text(&mut out, "\r\n");
                k = k + 1;
                assert(out@ =~= base + field_wire(name@, values@, k as int));
            }
            i = i + 1;
        }
        out
    }
}

/// A field that was set is found, whatever the case of its name; the others stay.
pub proof fn law_field_set(h: Fields, name: Seq<char>, v: Seq<char>, other: Seq<char>)
    requires
        in_name_order(h),
    ensures
        lowered(other) == lowered(name) ==> field(with_field(h, name, v), other) == Some(v),
        lowered(other) != lowered(name) ==> field(with_field(h, name, v), other) == field(h, other),
{
    law_put_value(h, lowered(name), seq![v], lowered(other));
}


/// The pairs of name and value in fields, one after the other.
pub open spec fn flat(h: Fields, n: int) -> Seq<(Seq<char>, Seq<char>)>
    decreases n,
{
    if n <= 0 {
        seq![]
    } else {
        flat(h, n - 1) + h[n - 1].1.map_values(|v: Seq<char>| (h[n - 1].0, v))
    }
}

/// The fields that pairs make when they are added one after the other.
pub open spec fn gathered(pairs: Seq<(Seq<char>, Seq<char>)>) -> Fields
    decreases pairs.len(),
{
    if pairs.len() == 0 {
        seq![]
    } else {
        with_more(gathered(pairs.drop_last()), pairs.last().0, pairs.last().1)
    }
}

proof fn lemma_value_last(h: Fields, name: Seq<char>, values: Seq<Seq<char>>)
    requires
        forall|j: int| 0 <= j < h.len() ==> before((#[trigger] h[j]).0, name),
    ensures
        value(h, name) is None,
        value(h.push((name, values)), name) == Some(values),
    decreases h.len(),
{
    if h.len() > 0 {
        let rest = h.skip(1);
        assert(before(h[0].0, name));
        law_before_irreflexive(name);
        assert forall|j: int| 0 <= j < rest.len() implies before((#[trigger] rest[j]).0, name) by {
            assert(rest[j] == h[j + 1]);
        }
        lemma_value_last(rest, name, values);
        assert(h.push((name, values)).skip(1) =~= rest.push((name, values)));
    } else {
        assert(h.push((name, values)).skip(1) =~= h);
    }
}

/// Putting a value in place of the last one.
proof fn lemma_put_again(h: Fields, name: Seq<char>, values: Seq<Seq<char>>, other: Seq<Seq<char>>)
    requires
        forall|j: int| 0 <= j < h.len() ==> before((#[trigger] h[j]).0, name),
    ensures
        put(h.push((name, values)), name, other) == h.push((name, other)),
    decreases h.len(),
{
    let all = h.push((name, values));
    law_before_irreflexive(name);
    if h.len() > 0 {
        let rest = h.skip(1);
        assert(before(h[0].0, name));
        if before(name, h[0].0) {
            law_before_transitive(name, h[0].0, name);
        }
        assert forall|j: int| 0 <= j < rest.len() implies before((#[trigger] rest[j]).0, name) by {
            assert(rest[j] == h[j + 1]);
        }
        lemma_put_again(rest, name, values, other);
        assert(all.skip(1) =~= rest.push((name, values)));
    } else {
        assert(all.skip(1) =~= h);
    }
    assert(put(all, name, other) =~= h.push((name, other)));
}

proof fn lemma_gather_values(
    pairs: Seq<(Seq<char>, Seq<char>)>,
    base: Fields,
    name: Seq<char>,
    values: Seq<Seq<char>>,
    k: int,
)
    requires
        gathered(pairs) == base,
        forall|j: int| 0 <= j < base.len() ==> before((#[trigger] base[j]).0, name),
        lowered(name) == name,
        0 <= k <= values.len(),
    ensures
        gathered(pairs + values.take(k).map_values(|v: Seq<char>| (name, v))) == (if k == 0 {
            base
        } else {
            base.push((name, values.take(k)))
        }),
    decreases k,
{
    let more = values.take(k).map_values(|v: Seq<char>| (name, v));
    let all = pairs + more;
    if k == 0 {
        assert(all =~= pairs);
    } else {
        let less = values.take(k - 1).map_values(|v: Seq<char>| (name, v));
        assert(all.drop_last() =~= pairs + less);
        assert(all.last() == (name, values[k - 1]));
        lemma_gather_values(pairs, base, name, values, k - 1);
        lemma_value_last(base, name, values.take(k - 1));
        if k == 1 {
            lemma_put_last(base, name, seq![values[0]]);
            assert(Seq::<Seq<char>>::empty().push(values[0]) =~= seq![values[0]]);
            assert(values.take(1) =~= seq![values[0]]);
        } else {
            lemma_put_again(base, name, values.take(k - 1), values.take(k));
            assert(values.take(k - 1).push(values[k - 1]) =~= values.take(k));
        }
    }
}

/// Fields are made again from their pairs.
pub proof fn law_gather_flat(h: Fields, n: int)
    requires
        in_name_order(h),
        is_kept(h),
        0 <= n <= h.len(),
    ensures
        gathered(flat(h, n)) == h.take(n),
    decreases n,
{
    if n == 0 {
        assert(h.take(0) =~= seq![]);
    } else {
        law_gather_flat(h, n - 1);
        let base = h.take(n - 1);
        let name = h[n - 1].0;
        let values = h[n - 1].1;
        assert(lowered(name) == name && values.len() > 0);
        assert forall|j: int| 0 <= j < base.len() implies before((#[trigger] base[j]).0, name) by {
            assert(before(h[j].0, h[n - 1].0));
        }
        lemma_gather_values(flat(h, n - 1), base, name, values, values.len() as int);
        assert(values.take(values.len() as int) =~= values);
        assert(base.push(h[n - 1]) =~= h.take(n));
    }
}

/// A value that is added comes behind those that stand under its name, whatever the case of the name; the values under
/// other names stay.
pub proof fn law_value_added(h: Fields, name: Seq<char>, v: Seq<char>, other: Seq<char>)
    requires
        in_name_order(h),
    ensures
        lowered(other) == lowered(name) ==> values_of(with_more(h, name, v), other) == values_of(h, other).push(v),
        lowered(other) != lowered(name) ==> values_of(with_more(h, name, v), other) == values_of(h, other),
        values_of(h, other).len() == 0 ==> lowered(other) == lowered(name) ==> field(with_more(h, name, v), other)
            == Some(v),
        values_of(h, other).len() > 0 ==> field(with_more(h, name, v), other) == field(h, other),
        in_name_order(with_more(h, name, v)),
{
    law_put_in_order(h, lowered(name), values_of(h, name).push(v));
    law_put_value(h, lowered(name), values_of(h, name).push(v), lowered(other));
}

/// A header line gives the field that stands before and behind its first colon, without the white space around them.
pub proof fn law_field_line(name: Seq<char>, v: Seq<char>)
    requires
        lacks(name, ':'),
    ensures
        field_in(name + seq![':'] + v) == Some((trimmed(name), trimmed(v))),
        field_in(name) is None,
{
    let line = name + seq![':'] + v;
    let n = name.len() as int;
    assert forall|j: int| 0 <= j < n implies line[j] != ':' by {
        assert(line[j] == name[j]);
    }
    lemma_find_is(line, ':', n);
    lemma_find_none(name, ':');
    assert(line.take(n) =~= name);
    assert(line.skip(n + 1) =~= v);
}

/// Fields one after the other hold each value of each field, in the order of the fields and of their values, and no
/// more than these.
pub proof fn law_flat_fields(h: Fields, n: int, i: int, j: int)
    requires
        0 <= i < n <= h.len(),
        0 <= j < h[i].1.len(),
    ensures
        flat(h, n).len() == flat(h, n - 1).len() + h[n - 1].1.len(),
        flat(h, n)[flat(h, i).len() + j] == (h[i].0, h[i].1[j]),
        flat(h, 0).len() == 0,
    decreases n,
{
    let own = h[n - 1].1.map_values(|v: Seq<char>| (h[n - 1].0, v));
    if i < n - 1 {
        law_flat_fields(h, n - 1, i, j);
        lemma_flat_room(h, i + 1, n - 1);
        assert(flat(h, i + 1).len() == flat(h, i).len() + h[i].1.len());
        assert(flat(h, n)[flat(h, i).len() + j] == flat(h, n - 1)[flat(h, i).len() + j]);
    } else {
        assert(own[j] == (h[i].0, h[i].1[j]));
    }
}

proof fn lemma_flat_room(h: Fields, i: int, n: int)
    requires
        0 <= i <= n <= h.len(),
    ensures
        flat(h, i).len() <= flat(h, n).len(),
    decreases n - i,
{
    if i < n {
        lemma_flat_room(h, i, n - 1);
    }
}

}
