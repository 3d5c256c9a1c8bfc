use vstd::prelude::*;

use crate::lex;
use crate::token::{chars_to_string, JsonNumber, SpecNumber};

verus! {

broadcast use vstd::seq::group_seq_axioms, vstd::std_specs::vec::group_vec_axioms;

/// The mathematical counterpart of [`Value`]: an object is an ordered
/// sequence of key/value entries with pairwise distinct keys, an array an
/// ordered sequence of values.
#[verifier::ext_equal]
pub enum SpecValue {
    Object(Seq<(Seq<char>, SpecValue)>),
    Array(Seq<SpecValue>),
    String(Seq<char>),
    Number(SpecNumber),
    Boolean(bool),
    Null,
}

/// An ordered mapping from string keys to values: entries keep the order in
/// which their keys were first inserted, and inserting an existing key
/// overwrites its value in place (last write wins).
#[derive(Debug, PartialEq)]
pub struct IndexMap {
    pub entries: Vec<(String, Value)>,
}

/// The decoded tree: the output of a successful decode.  Constructed
/// bottom-up by the tree builder; immutable afterwards.
#[derive(Debug, PartialEq)]
pub enum Value {
    JsonObject(IndexMap),
    JsonArray(Vec<Value>),
    String(String),
    Boolean(bool),
    Number(JsonNumber),
    Null,
}

pub open spec fn value_view(v: Value) -> SpecValue
    decreases v, 0int,
{
    match v {
        Value::JsonObject(m) => SpecValue::Object(entries_view(m.entries@)),
        Value::JsonArray(vs) => SpecValue::Array(values_view(vs@)),
        Value::String(s) => SpecValue::String(s@),
        Value::Boolean(b) => SpecValue::Boolean(b),
        Value::Number(n) => SpecValue::Number(n@),
        Value::Null => SpecValue::Null,
    }
}

pub open spec fn values_view(s: Seq<Value>) -> Seq<SpecValue>
    decreases s, 1int,
{
    if s.len() == 0 {
        Seq::empty()
    } else {
        seq![value_view(s[0])] + values_view(s.skip(1))
    }
}

pub open spec fn entries_view(s: Seq<(String, Value)>) -> Seq<(Seq<char>, SpecValue)>
    decreases s, 1int,
{
    if s.len() == 0 {
        Seq::empty()
    } else {
        seq![(s[0].0@, value_view(s[0].1))] + entries_view(s.skip(1))
    }
}

impl View for Value {
    type V = SpecValue;

    open spec fn view(&self) -> SpecValue {
        value_view(*self)
    }
}

impl View for IndexMap {
    type V = Seq<(Seq<char>, SpecValue)>;

    open spec fn view(&self) -> Seq<(Seq<char>, SpecValue)> {
        entries_view(self.entries@)
    }
}

pub proof fn lemma_values_view(s: Seq<Value>)
    ensures
        values_view(s).len() == s.len(),
        forall|i: int| 0 <= i < s.len() ==> values_view(s)[i] == value_view(#[trigger] s[i]),
    decreases s.len(),
{
    if s.len() > 0 {
        lemma_values_view(s.skip(1));
        assert forall|i: int| 0 <= i < s.len() implies values_view(s)[i] == value_view(
            #[trigger] s[i],
        ) by {
            if i > 0 {
                assert(values_view(s)[i] == values_view(s.skip(1))[i - 1]);
                assert(s.skip(1)[i - 1] == s[i]);
            }
        }
    }
}

pub proof fn lemma_entries_view(s: Seq<(String, Value)>)
    ensures
        entries_view(s).len() == s.len(),
        forall|i: int| 0 <= i < s.len() ==> entries_view(s)[i] == ((#[trigger] s[i]).0@,
        value_view(s[i].1)),
    decreases s.len(),
{
    if s.len() > 0 {
        lemma_entries_view(s.skip(1));
        assert forall|i: int| 0 <= i < s.len() implies entries_view(s)[i] == ((#[trigger] s[i]).0@,
        value_view(s[i].1)) by {
            if i > 0 {
                assert(entries_view(s)[i] == entries_view(s.skip(1))[i - 1]);
                assert(s.skip(1)[i - 1] == s[i]);
            }
        }
    }
}

pub proof fn lemma_values_view_push(s: Seq<Value>, v: Value)
    ensures
        values_view(s.push(v)) == values_view(s).push(value_view(v)),
{
    lemma_values_view(s);
    lemma_values_view(s.push(v));
    assert forall|i: int| 0 <= i < s.len() + 1 implies values_view(s.push(v))[i] == values_view(
        s,
    ).push(value_view(v))[i] by {
        assert(values_view(s.push(v))[i] == value_view(s.push(v)[i]));
        if i < s.len() {
            assert(s.push(v)[i] == s[i]);
            assert(values_view(s)[i] == value_view(s[i]));
        } else {
            assert(s.push(v)[i] == v);
        }
    }
    assert(values_view(s.push(v)) =~= values_view(s).push(value_view(v)));
}

/// What inserting a key/value pair does to an object's entries: the first
/// entry with the same key is overwritten in place, keeping its position; a
/// fresh key goes to the end.
pub open spec fn obj_insert(
    es: Seq<(Seq<char>, SpecValue)>,
    k: Seq<char>,
    v: SpecValue,
) -> Seq<(Seq<char>, SpecValue)>
    decreases es.len(),
{
    if es.len() == 0 {
        seq![(k, v)]
    } else if es[0].0 == k {
        seq![(k, v)] + es.skip(1)
    } else {
        seq![es[0]] + obj_insert(es.skip(1), k, v)
    }
}

pub proof fn lemma_obj_insert_found(es: Seq<(Seq<char>, SpecValue)>, k: Seq<char>, v: SpecValue, i: int)
    requires
        0 <= i < es.len(),
        es[i].0 == k,
        forall|j: int| 0 <= j < i ==> (#[trigger] es[j]).0 != k,
    ensures
        obj_insert(es, k, v) == es.update(i, (k, v)),
    decreases i,
{
    if i == 0 {
        assert(obj_insert(es, k, v) =~= es.update(0, (k, v)));
    } else {
        lemma_obj_insert_found(es.skip(1), k, v, i - 1);
        assert(seq![es[0]] + es.skip(1).update(i - 1, (k, v)) =~= es.update(i, (k, v)));
    }
}

pub proof fn lemma_obj_insert_missing(es: Seq<(Seq<char>, SpecValue)>, k: Seq<char>, v: SpecValue)
    requires
        forall|j: int| 0 <= j < es.len() ==> (#[trigger] es[j]).0 != k,
    ensures
        obj_insert(es, k, v) == es.push((k, v)),
    decreases es.len(),
{
    if es.len() == 0 {
        assert(obj_insert(es, k, v) =~= es.push((k, v)));
    } else {
        lemma_obj_insert_missing(es.skip(1), k, v);
        assert(seq![es[0]] + es.skip(1).push((k, v)) =~= es.push((k, v)));
    }
}

impl IndexMap {
    pub fn new() -> (r: Self)
        ensures
            r@ == Seq::<(Seq<char>, SpecValue)>::empty(),
    {
        IndexMap { entries: Vec::new() }
    }

    /// How many entries the mapping holds.
    pub fn len(&self) -> (n: usize)
        ensures
            n == self.entries@.len(),
    {
        proof {
            lemma_entries_view(self.entries@);
        }
        self.entries.len()
    }

    /// Insert a pair: an existing key keeps its position and takes the new
    /// value, a fresh key goes to the end.
    pub fn insert(&mut self, k: String, v: Value)
        ensures
            final(self)@ == obj_insert(old(self)@, k@, v@),
    {
        proof {
            lemma_entries_view(self.entries@);
        }
        let ghost es0 = self.entries@;
        let n = self.entries.len();
        let mut i: usize = 0;
        while i < n
            invariant
                i <= n,
                n == self.entries@.len(),
                self.entries@ == es0,
                es0 == old(self).entries@,
                forall|j: int| 0 <= j < i ==> (#[trigger] es0[j]).0@ != k@,
            decreases n - i,
        {
            if self.entries[i].0 == k {
                let ghost kv = (k@, v@);
                proof {
                    lemma_entries_view(es0);
                    assert forall|j: int| 0 <= j < i implies (#[trigger] entries_view(es0)[j]).0
                        != kv.0 by {
                        assert(entries_view(es0)[j] == (es0[j].0@, value_view(es0[j].1)));
                    }
                    lemma_obj_insert_found(entries_view(es0), kv.0, kv.1, i as int);
                }
                self.entries.remove(i);
                self.entries.insert(i, (k, v));
                proof {
                    assert(self.entries@ =~= es0.update(i as int, self.entries@[i as int]));
                    lemma_entries_view(self.entries@);
                    assert(self.entries@[i as int].0@ == kv.0);
                    assert(value_view(self.entries@[i as int].1) == kv.1);
                    assert forall|j: int| 0 <= j < es0.len() implies entries_view(
                        self.entries@,
                    )[j] == entries_view(es0).update(i as int, kv)[j] by {
                        assert(entries_view(self.entries@)[j] == (self.entries@[j].0@,
                        value_view(self.entries@[j].1)));
                        assert(entries_view(es0)[j] == (es0[j].0@, value_view(es0[j].1)));
                    }
                    assert(entries_view(self.entries@) =~= entries_view(es0).update(
                        i as int,
                        kv,
                    ));
                }
                return ;
            }
            i = i + 1;
        }
        let ghost kv = (k@, v@);
        proof {
            lemma_entries_view(es0);
            assert forall|j: int| 0 <= j < es0.len() implies (#[trigger] entries_view(es0)[j]).0
                != kv.0 by {
                assert(entries_view(es0)[j] == (es0[j].0@, value_view(es0[j].1)));
            }
            lemma_obj_insert_missing(entries_view(es0), kv.0, kv.1);
        }
        self.entries.push((k, v));
        proof {
            assert(self.entries@ =~= es0.push(self.entries@[es0.len() as int]));
            lemma_entries_view(self.entries@);
            assert(self.entries@[es0.len() as int].0@ == kv.0);
            assert(value_view(self.entries@[es0.len() as int].1) == kv.1);
            assert forall|j: int| 0 <= j < self.entries@.len() implies entries_view(
                self.entries@,
            )[j] == entries_view(es0).push(kv)[j] by {
                assert(entries_view(self.entries@)[j] == (self.entries@[j].0@,
                value_view(self.entries@[j].1)));
                if j < es0.len() {
                    assert(entries_view(es0)[j] == (es0[j].0@, value_view(es0[j].1)));
                }
            }
            assert(entries_view(self.entries@) =~= entries_view(es0).push(kv));
        }
    }
}

/// The canonical text of one string character: the double quote, the
/// backslash and the three supported control characters are escaped,
/// everything else is written as itself.
pub open spec fn spec_escape(c: char) -> Seq<char> {
    if c == '"' {
        seq!['\\', '"']
    } else if c == '\\' {
        seq!['\\', '\\']
    } else if c == '\t' {
        seq!['\\', 't']
    } else if c == '\n' {
        seq!['\\', 'n']
    } else if c == '\r' {
        seq!['\\', 'r']
    } else {
        seq![c]
    }
}

pub open spec fn spec_escape_all(s: Seq<char>) -> Seq<char>
    decreases s.len(),
{
    if s.len() == 0 {
        Seq::empty()
    } else {
        spec_escape(s[0]) + spec_escape_all(s.skip(1))
    }
}

pub proof fn lemma_escape_all_push(s: Seq<char>, c: char)
    ensures
        spec_escape_all(s.push(c)) == spec_escape_all(s) + spec_escape(c),
    decreases s.len(),
{
    if s.len() == 0 {
        assert(s.push(c).skip(1) =~= Seq::<char>::empty());
        assert(s.push(c)[0] == c);
        assert(spec_escape_all(Seq::<char>::empty()) == Seq::<char>::empty());
        assert(spec_escape_all(s.push(c)) == spec_escape(c) + spec_escape_all(
            Seq::<char>::empty(),
        ));
        assert(spec_escape(c) + Seq::<char>::empty() =~= spec_escape(c));
        assert(Seq::<char>::empty() + spec_escape(c) =~= spec_escape(c));
    } else {
        assert(s.push(c)[0] == s[0]);
        assert(s.push(c).skip(1) =~= s.skip(1).push(c));
        lemma_escape_all_push(s.skip(1), c);
        assert(spec_escape(s[0]) + (spec_escape_all(s.skip(1)) + spec_escape(c)) =~= (spec_escape(
            s[0],
        ) + spec_escape_all(s.skip(1))) + spec_escape(c));
    }
}

/// The canonical text of a string value: the escaped payload between quotes.
pub open spec fn spec_string_text(s: Seq<char>) -> Seq<char> {
    seq!['"'] + spec_escape_all(s) + seq!['"']
}

/// The canonical text of a number: sign, integer digits, the fraction part
/// when it has digits, and the exponent part when it has digits or an
/// explicit sign.
pub open spec fn spec_number_text(n: SpecNumber) -> Seq<char> {
    let sign = if n.neg {
        seq!['-']
    } else {
        Seq::<char>::empty()
    };
    let frac = if n.frac_digits.len() > 0 {
        seq!['.'] + n.frac_digits
    } else {
        Seq::<char>::empty()
    };
    let exp = if n.exp_digits.len() > 0 || n.exp_neg {
        seq!['e'] + (if n.exp_neg {
            seq!['-']
        } else {
            Seq::<char>::empty()
        }) + n.exp_digits
    } else {
        Seq::<char>::empty()
    };
    sign + n.int_digits + frac + exp
}

/// The canonical re-serialization of a tree value.
pub open spec fn spec_text(v: SpecValue) -> Seq<char>
    decreases v, 0int,
{
    match v {
        SpecValue::Null => lex::null_lit(),
        SpecValue::Boolean(b) => if b {
            lex::true_lit()
        } else {
            lex::false_lit()
        },
        SpecValue::Number(n) => spec_number_text(n),
        SpecValue::String(s) => spec_string_text(s),
        SpecValue::Array(items) => seq!['['] + spec_join_values(items) + seq![']'],
        SpecValue::Object(es) => seq!['{'] + spec_join_entries(es) + seq!['}'],
    }
}

pub open spec fn spec_join_values(items: Seq<SpecValue>) -> Seq<char>
    decreases items, 1int,
{
    if items.len() == 0 {
        Seq::empty()
    } else if items.len() == 1 {
        spec_text(items[0])
    } else {
        spec_text(items[0]) + seq![','] + spec_join_values(items.skip(1))
    }
}

pub open spec fn spec_join_entries(es: Seq<(Seq<char>, SpecValue)>) -> Seq<char>
    decreases es, 1int,
{
    if es.len() == 0 {
        Seq::empty()
    } else if es.len() == 1 {
        spec_entry_text(es[0])
    } else {
        spec_entry_text(es[0]) + seq![','] + spec_join_entries(es.skip(1))
    }
}

pub open spec fn spec_entry_text(e: (Seq<char>, SpecValue)) -> Seq<char>
    decreases e, 0int,
{
    spec_string_text(e.0) + seq![':'] + spec_text(e.1)
}

fn write_string(s: &String, out: &mut Vec<char>)
    ensures
        final(out)@ == old(out)@ + spec_string_text(s@),
{
    let ghost base = out@;
    out.push('"');
    let n = s.as_str().unicode_len();
    let mut i: usize = 0;
    while i < n
        invariant
            i <= n,
            n == s@.len(),
            out@ == base + seq!['"'] + spec_escape_all(s@.take(i as int)),
        decreases n - i,
    {
        let c = s.as_str().get_char(i);
        let ghost done = s@.take(i as int);
        if c == '"' {
            out.push('\\');
            out.push('"');
        } else if c == '\\' {
            out.push('\\');
            out.push('\\');
        } else if c == '\t' {
            out.push('\\');
            out.push('t');
        } else if c == '\n' {
            out.push('\\');
            out.push('n');
        } else if c == '\r' {
            out.push('\\');
            out.push('r');
        } else {
            out.push(c);
        }
        proof {
            lemma_escape_all_push(done, c);
            assert(done.push(c) =~= s@.take(i as int + 1));
            assert(base + seq!['"'] + spec_escape_all(done) + spec_escape(c) =~= base + seq!['"']
                + spec_escape_all(s@.take(i as int + 1)));
        }
        i = i + 1;
    }
    out.push('"');
    proof {
        assert(s@.take(n as int) =~= s@);
        assert(base + seq!['"'] + spec_escape_all(s@) + seq!['"'] =~= base + spec_string_text(s@));
    }
}

fn write_digits(digits: &Vec<char>, out: &mut Vec<char>)
    ensures
        final(out)@ == old(out)@ + digits@,
{
    let ghost base = out@;
    let n = digits.len();
    let mut i: usize = 0;
    while i < n
        invariant
            i <= n,
            n == digits@.len(),
            out@ == base + digits@.take(i as int),
        decreases n - i,
    {
        out.push(digits[i]);
        proof {
            assert(base + digits@.take(i as int) + seq![digits@[i as int]] =~= base + digits@.take(
                i as int + 1,
            ));
        }
        i = i + 1;
    }
    proof {
        assert(digits@.take(n as int) =~= digits@);
    }
}

fn write_number(num: &JsonNumber, out: &mut Vec<char>)
    ensures
        final(out)@ == old(out)@ + spec_number_text(num@),
{
    let ghost base = out@;
    if num.neg {
        out.push('-');
    }
    write_digits(&num.int_digits, out);
    if num.frac_digits.len() > 0 {
        out.push('.');
        write_digits(&num.frac_digits, out);
    }
    if num.exp_digits.len() > 0 || num.exp_neg {
        out.push('e');
        if num.exp_neg {
            out.push('-');
        }
        write_digits(&num.exp_digits, out);
    }
    proof {
        assert(out@ =~= base + spec_number_text(num@));
    }
}

fn write_value(v: &Value, out: &mut Vec<char>)
    ensures
        final(out)@ == old(out)@ + spec_text(v@),
    decreases v, 0int, 0int,
{
    let ghost base = out@;
    match v {
        Value::Null => {
            out.push('n');
            out.push('u');
            out.push('l');
            out.push('l');
            proof {
                assert(out@ =~= base + lex::null_lit());
            }
        },
        Value::Boolean(b) => {
            if *b {
                out.push('t');
                out.push('r');
                out.push('u');
                out.push('e');
                proof {
                    assert(out@ =~= base + lex::true_lit());
                }
            } else {
                out.push('f');
                out.push('a');
                out.push('l');
                out.push('s');
                out.push('e');
                proof {
                    assert(out@ =~= base + lex::false_lit());
                }
            }
        },
        Value::Number(n) => {
            write_number(n, out);
        },
        Value::String(s) => {
            write_string(s, out);
        },
        Value::JsonArray(vs) => {
            out.push('[');
            proof {
                assert(out@ =~= base + seq!['[']);
            }
            write_values(vs, 0, out);
            out.push(']');
            proof {
                assert(vs@.skip(0) =~= vs@);
                assert(values_view(vs@.skip(0)) =~= values_view(vs@));
                assert(base + seq!['['] + spec_join_values(values_view(vs@)) + seq![']'] =~= base
                    + spec_text(v@));
            }
        },
        Value::JsonObject(m) => {
            out.push('{');
            proof {
                assert(out@ =~= base + seq!['{']);
            }
            write_entries(&m.entries, 0, out);
            out.push('}');
            proof {
                assert(m.entries@.skip(0) =~= m.entries@);
                assert(entries_view(m.entries@.skip(0)) =~= entries_view(m.entries@));
                assert(base + seq!['{'] + spec_join_entries(entries_view(m.entries@)) + seq!['}']
                    =~= base + spec_text(v@));
            }
        },
    }
}

fn write_values(vs: &Vec<Value>, i: usize, out: &mut Vec<char>)
    requires
        i <= vs@.len(),
    ensures
        final(out)@ == old(out)@ + spec_join_values(values_view(vs@.skip(i as int))),
    decreases vs, 1int, vs@.len() - i,
{
    let ghost rest = vs@.skip(i as int);
    proof {
        lemma_values_view(rest);
    }
    if i < vs.len() {
        write_value(&vs[i], out);
        proof {
            assert(rest[0] == vs@[i as int]);
            assert(values_view(rest)[0] == value_view(vs@[i as int]));
        }
        if i + 1 < vs.len() {
            out.push(',');
            write_values(vs, i + 1, out);
            proof {
                assert(rest.skip(1) =~= vs@.skip(i as int + 1));
                assert(values_view(rest).skip(1) =~= values_view(vs@.skip(i as int + 1))) by {
                    lemma_values_view(vs@.skip(i as int + 1));
                    assert forall|j: int|
                        0 <= j < values_view(rest).skip(1).len() implies values_view(rest).skip(
                        1,
                    )[j] == values_view(vs@.skip(i as int + 1))[j] by {
                        assert(values_view(rest)[j + 1] == value_view(rest[j + 1]));
                        assert(rest[j + 1] == vs@.skip(i as int + 1)[j]);
                    }
                }
                assert(values_view(rest).len() > 1);
                assert(spec_join_values(values_view(rest)) =~= spec_text(values_view(rest)[0])
                    + seq![','] + spec_join_values(values_view(rest).skip(1)));
                assert(out@ =~= old(out)@ + spec_join_values(values_view(rest)));
            }
        } else {
            proof {
                assert(values_view(rest).len() == 1);
                assert(spec_join_values(values_view(rest)) == spec_text(values_view(rest)[0]));
                assert(out@ =~= old(out)@ + spec_join_values(values_view(rest)));
            }
        }
    } else {
        proof {
            assert(values_view(rest).len() == 0);
            assert(out@ =~= old(out)@ + spec_join_values(values_view(rest)));
        }
    }
}

fn write_entries(es: &Vec<(String, Value)>, i: usize, out: &mut Vec<char>)
    requires
        i <= es@.len(),
    ensures
        final(out)@ == old(out)@ + spec_join_entries(entries_view(es@.skip(i as int))),
    decreases es, 1int, es@.len() - i,
{
    let ghost rest = es@.skip(i as int);
    proof {
        lemma_entries_view(rest);
    }
    if i < es.len() {
        write_string(&es[i].0, out);
        out.push(':');
        write_value(&es[i].1, out);
        proof {
            assert(rest[0] == es@[i as int]);
            assert(entries_view(rest)[0] == (es@[i as int].0@, value_view(es@[i as int].1)));
            assert(out@ =~= old(out)@ + spec_entry_text(entries_view(rest)[0]));
        }
        if i + 1 < es.len() {
            out.push(',');
            let ghost mid = out@;
            write_entries(es, i + 1, out);
            proof {
                assert(rest.skip(1) =~= es@.skip(i as int + 1));
                assert(entries_view(rest).skip(1) =~= entries_view(es@.skip(i as int + 1))) by {
                    lemma_entries_view(es@.skip(i as int + 1));
                    assert forall|j: int|
                        0 <= j < entries_view(rest).skip(1).len() implies entries_view(rest).skip(
                        1,
                    )[j] == entries_view(es@.skip(i as int + 1))[j] by {
                        assert(entries_view(rest)[j + 1] == (rest[j + 1].0@,
                        value_view(rest[j + 1].1)));
                        assert(rest[j + 1] == es@.skip(i as int + 1)[j]);
                    }
                }
                assert(entries_view(rest).len() > 1);
                assert(spec_join_entries(entries_view(rest)) =~= spec_entry_text(entries_view(
                    rest,
                )[0]) + seq![','] + spec_join_entries(entries_view(rest).skip(1)));
                assert(out@ =~= old(out)@ + spec_join_entries(entries_view(rest)));
            }
        } else {
            proof {
                assert(entries_view(rest).len() == 1);
                assert(spec_join_entries(entries_view(rest)) == spec_entry_text(entries_view(
                    rest,
                )[0]));
                assert(out@ =~= old(out)@ + spec_join_entries(entries_view(rest)));
            }
        }
    } else {
        proof {
            assert(entries_view(rest).len() == 0);
            assert(out@ =~= old(out)@ + spec_join_entries(entries_view(rest)));
        }
    }
}

impl Value {
    /// The canonical re-serialization of the tree: a text that decodes back
    /// to an equal tree.
    pub fn to_text(&self) -> (t: String)
        ensures
            t@ == spec_text(self@),
    {
        let mut out: Vec<char> = Vec::new();
        write_value(self, &mut out);
        proof {
            assert(Seq::<char>::empty() + spec_text(self@) =~= spec_text(self@));
        }
        chars_to_string(&out)
    }
}

} // verus!
