//! The pretty printer of the text form: one member or item per line,
//! indented by tabs, with numbers after the first of an array kept on its line.

use vstd::prelude::*;
use crate::bin_read::string_from_utf8;
use crate::text::{TextMember, TextValue};

verus! {

broadcast use vstd::std_specs::vec::group_vec_axioms;

/// A lowercase hexadecimal digit.
pub open spec fn hex_lower(d: nat) -> char {
    if d < 10 {
        ((0x30 + d) as u8) as char
    } else {
        ((0x61 + d - 10) as u8) as char
    }
}

/// How one character stands in a JSON string literal: a quote and a
/// backslash escaped by a backslash, backspace, tab, line feed, form feed and
/// carriage return by their letter escapes, other characters below U+0020 as
/// `\u00` and two lowercase hex digits, everything else as itself.
pub open spec fn escape_char(c: char) -> Seq<char> {
    let x = c as u32;
    if c == '"' {
        seq!['\\', '"']
    } else if c == '\\' {
        seq!['\\', '\\']
    } else if x == 0x08 {
        seq!['\\', 'b']
    } else if x == 0x09 {
        seq!['\\', 't']
    } else if x == 0x0A {
        seq!['\\', 'n']
    } else if x == 0x0C {
        seq!['\\', 'f']
    } else if x == 0x0D {
        seq!['\\', 'r']
    } else if x < 0x20 {
        seq!['\\', 'u', '0', '0', hex_lower((x / 16) as nat), hex_lower((x % 16) as nat)]
    } else {
        seq![c]
    }
}

/// The escaped characters of a string, one after another.
pub open spec fn escaped(s: Seq<char>) -> Seq<char>
    decreases s.len(),
{
    if s.len() == 0 {
        seq![]
    } else {
        escaped(s.drop_last()) + escape_char(s.last())
    }
}

/// The JSON string literal of a string: quoted, with the characters that JSON
/// needs escaped.
pub open spec fn json_quoted(s: Seq<char>) -> Seq<char> {
    seq!['"'] + escaped(s) + seq!['"']
}

/// Relies on `json::stringify`: a string becomes its JSON literal, quoted and
/// with each character escaped as `escape_char` says (the escape table and
/// `write_string` of the crate's code generator).
#[verifier::external_body]
fn quote(s: &str) -> (r: String)
    ensures
        r@ == json_quoted(s@),
{
    json::stringify(s)
}

pub open spec fn utf8(s: Seq<char>) -> Seq<u8> {
    vstd::utf8::encode_utf8(s)
}

/// A line break and `d` tabs.
pub open spec fn nl(d: nat) -> Seq<u8> {
    seq![0x0Au8] + Seq::new(d, |i: int| 0x09u8)
}

/// The decimal digits of `n`.
pub open spec fn dec_digits(n: nat) -> Seq<u8>
    decreases n,
{
    if n < 10 {
        seq![(0x30 + n) as u8]
    } else {
        dec_digits(n / 10) + seq![(0x30 + n % 10) as u8]
    }
}

/// Whether every number in a tree is an integer or already written out.
pub open spec fn printable(v: TextValue) -> bool
    decreases v,
{
    match v {
        TextValue::Float(_) => false,
        TextValue::Number(_) => false,
        TextValue::Array(a) => forall|i: int| 0 <= i < a@.len() ==> printable(#[trigger] a@[i]),
        TextValue::Object(ms) => forall|i: int|
            0 <= i < ms@.len() ==> printable((#[trigger] ms@[i]).value),
        _ => true,
    }
}

/// How deep arrays and objects nest.
pub open spec fn depth(v: TextValue) -> nat
    decreases v,
{
    match v {
        TextValue::Array(a) => 1 + depth_items(a@, a@.len()),
        TextValue::Object(ms) => 1 + depth_members(ms@, ms@.len()),
        _ => 0,
    }
}

pub open spec fn depth_items(a: Seq<TextValue>, n: nat) -> nat
    decreases a, n,
{
    if n == 0 || n > a.len() {
        0
    } else {
        let x = depth(a[n - 1]);
        let y = depth_items(a, (n - 1) as nat);
        if x > y {
            x
        } else {
            y
        }
    }
}

pub open spec fn depth_members(ms: Seq<TextMember>, n: nat) -> nat
    decreases ms, n,
{
    if n == 0 || n > ms.len() {
        0
    } else {
        let x = depth(ms[n - 1].value);
        let y = depth_members(ms, (n - 1) as nat);
        if x > y {
            x
        } else {
            y
        }
    }
}

pub open spec fn is_number(v: TextValue) -> bool {
    v is Int || v is Raw || v is Float || v is Number
}

/// The bytes of a node printed at indentation `d`.
pub open spec fn pretty(v: TextValue, d: nat) -> Seq<u8>
    decreases v, 0nat,
{
    match v {
        TextValue::Null => seq![0x6Eu8, 0x75u8, 0x6Cu8, 0x6Cu8],
        TextValue::Bool(b) => if b {
            seq![0x74u8, 0x72u8, 0x75u8, 0x65u8]
        } else {
            seq![0x66u8, 0x61u8, 0x6Cu8, 0x73u8, 0x65u8]
        },
        TextValue::Int { negative, magnitude } => if negative && magnitude != 0 {
            seq![0x2Du8] + dec_digits(magnitude as nat)
        } else {
            dec_digits(magnitude as nat)
        },
        TextValue::Raw(s) => utf8(s@),
        TextValue::Str(s) => utf8(json_quoted(s@)),
        TextValue::Array(a) => if a@.len() == 0 {
            seq![0x5Bu8, 0x5Du8]
        } else {
            seq![0x5Bu8] + nl(d + 1) + pretty(a@[0], d + 1) + pretty_items(a@, a@.len(), d + 1) + nl(
                d,
            ) + seq![0x5Du8]
        },
        TextValue::Object(ms) => if ms@.len() == 0 {
            seq![0x7Bu8, 0x7Du8]
        } else {
            seq![0x7Bu8] + nl(d + 1) + pretty_member(ms@[0], d + 1) + pretty_members(
                ms@,
                ms@.len(),
                d + 1,
            ) + nl(d) + seq![0x7Du8]
        },
        _ => seq![],
    }
}

/// Items 1..n of an array, each after its separator.
pub open spec fn pretty_items(a: Seq<TextValue>, n: nat, d: nat) -> Seq<u8>
    decreases a, n,
{
    if n <= 1 || n > a.len() {
        seq![]
    } else {
        pretty_items(a, (n - 1) as nat, d) + if is_number(a[n - 1]) {
            seq![0x2Cu8, 0x20u8]
        } else {
            seq![0x2Cu8] + nl(d)
        } + pretty(a[n - 1], d)
    }
}

/// A member: its key's literal, a colon and a space, its value.
pub open spec fn pretty_member(m: TextMember, d: nat) -> Seq<u8>
    decreases m, 0nat,
{
    utf8(json_quoted(m.key@)) + seq![0x3Au8, 0x20u8] + pretty(m.value, d)
}

/// Members 1..n of an object, each on its own line after a comma.
pub open spec fn pretty_members(ms: Seq<TextMember>, n: nat, d: nat) -> Seq<u8>
    decreases ms, n,
{
    if n <= 1 || n > ms.len() {
        seq![]
    } else {
        pretty_members(ms, (n - 1) as nat, d) + seq![0x2Cu8] + nl(d) + pretty_member(ms[n - 1], d)
    }
}

/// Writes a text tree as indented text into a byte buffer.
pub struct MyPrettyGenerator {
    buf: Vec<u8>,
    dent: usize,
}

impl MyPrettyGenerator {
    /// What has been written so far.
    pub closed spec fn written(&self) -> Seq<u8> {
        self.buf@
    }

    /// The current indentation.
    pub closed spec fn indentation(&self) -> nat {
        self.dent as nat
    }

    /// What has been written is UTF-8.
    pub closed spec fn wf(&self) -> bool {
        vstd::utf8::valid_utf8(self.buf@)
    }

    pub fn new() -> (r: Self)
        ensures
            r.wf(),
            r.written() == Seq::<u8>::empty(),
            r.indentation() == 0,
    {
        proof {
            assert(vstd::utf8::valid_utf8(Seq::<u8>::empty())) by {
                vstd::utf8::encode_utf8_valid_utf8(Seq::<char>::empty());
                assert(vstd::utf8::encode_utf8(Seq::<char>::empty()) =~= Seq::<u8>::empty());
            }
        }
        MyPrettyGenerator { buf: Vec::new(), dent: 0 }
    }

    /// The text written so far.
    pub fn consume(self) -> (r: String)
        requires
            self.wf(),
        ensures
            utf8(r@) == self.written(),
    {
        let ghost b = self.buf@;
        match string_from_utf8(self.buf) {
            Some(s) => {
                proof {
                    vstd::utf8::decode_utf8_encode_utf8(b);
                }
                s
            },
            None => String::new(),
        }
    }
}

proof fn lemma_ascii_valid(b: Seq<u8>)
    requires
        forall|i: int| 0 <= i < b.len() ==> #[trigger] b[i] < 128,
    ensures
        vstd::utf8::valid_utf8(b),
{
    let chars = b.map_values(|x: u8| x as char);
    assert(vstd::utf8::is_ascii_chars(chars));
    vstd::utf8::is_ascii_chars_encode_utf8(chars);
    assert(vstd::utf8::encode_utf8(chars) =~= b);
    vstd::utf8::encode_utf8_valid_utf8(chars);
}

proof fn lemma_depth_items(a: Seq<TextValue>, i: int, n: nat)
    requires
        0 <= i < n <= a.len(),
    ensures
        depth(a[i]) <= depth_items(a, n),
    decreases n,
{
    if i < n - 1 {
        lemma_depth_items(a, i, (n - 1) as nat);
    }
}

proof fn lemma_depth_members(ms: Seq<TextMember>, i: int, n: nat)
    requires
        0 <= i < n <= ms.len(),
    ensures
        depth(ms[i].value) <= depth_members(ms, n),
    decreases n,
{
    if i < n - 1 {
        lemma_depth_members(ms, i, (n - 1) as nat);
    }
}

impl MyPrettyGenerator {
    fn write(&mut self, slice: &[u8])
        requires
            old(self).wf(),
            vstd::utf8::valid_utf8(slice@),
        ensures
            final(self).wf(),
            final(self).buf@ == old(self).buf@ + slice@,
            final(self).dent == old(self).dent,
    {
        let ghost start = self.buf@;
        let mut i: usize = 0;
        while i < slice.len()
            invariant
                i <= slice@.len(),
                self.buf@ == start + slice@.subrange(0, i as int),
                self.dent == old(self).dent,
            decreases slice@.len() - i,
        {
            self.buf.push(slice[i]);
            i = i + 1;
            assert(slice@.subrange(0, i as int) =~= slice@.subrange(0, i - 1) + seq![slice@[i - 1]]);
        }
        assert(slice@.subrange(0, i as int) =~= slice@);
        proof {
            vstd::utf8::valid_utf8_concat(start, slice@);
        }
    }

    fn write_ascii(&mut self, slice: &[u8])
        requires
            old(self).wf(),
            forall|i: int| 0 <= i < slice@.len() ==> #[trigger] slice@[i] < 128,
        ensures
            final(self).wf(),
            final(self).buf@ == old(self).buf@ + slice@,
            final(self).dent == old(self).dent,
    {
        proof {
            lemma_ascii_valid(slice@);
        }
        self.write(slice);
    }

    fn write_char(&mut self, ch: u8)
        requires
            old(self).wf(),
            ch < 128,
        ensures
            final(self).wf(),
            final(self).buf@ == old(self).buf@ + seq![ch],
            final(self).dent == old(self).dent,
    {
        let one: [u8; 1] = [ch];
        assert(one@ =~= seq![ch]);
        self.write_ascii(&one);
    }

    fn new_line(&mut self)
        requires
            old(self).wf(),
        ensures
            final(self).wf(),
            final(self).buf@ == old(self).buf@ + nl(old(self).dent as nat),
            final(self).dent == old(self).dent,
    {
        let ghost start = self.buf@;
        self.write_char(0x0A);
        let mut i: usize = 0;
        while i < self.dent
            invariant
                self.wf(),
                i <= self.dent,
                self.dent == old(self).dent,
                self.buf@ == start + seq![0x0Au8] + Seq::new(i as nat, |k: int| 0x09u8),
            decreases self.dent - i,
        {
            self.write_char(0x09);
            i = i + 1;
            assert(Seq::new(i as nat, |k: int| 0x09u8) =~= Seq::new((i - 1) as nat, |k: int| 0x09u8)
                + seq![0x09u8]);
        }
    }

    fn indent(&mut self)
        requires
            old(self).dent < usize::MAX,
        ensures
            final(self).dent == old(self).dent + 1,
            final(self).buf == old(self).buf,
    {
        self.dent = self.dent + 1;
    }

    fn dedent(&mut self)
        requires
            old(self).dent > 0,
        ensures
            final(self).dent == old(self).dent - 1,
            final(self).buf == old(self).buf,
    {
        self.dent = self.dent - 1;
    }

    fn write_decimal(&mut self, n: u64)
        requires
            old(self).wf(),
        ensures
            final(self).wf(),
            final(self).buf@ == old(self).buf@ + dec_digits(n as nat),
            final(self).dent == old(self).dent,
        decreases n,
    {
        if n >= 10 {
            self.write_decimal(n / 10);
        }
        self.write_char((0x30 + n % 10) as u8);
    }

    fn write_string(&mut self, s: &str)
        requires
            old(self).wf(),
        ensures
            final(self).wf(),
            final(self).buf@ == old(self).buf@ + utf8(json_quoted(s@)),
            final(self).dent == old(self).dent,
    {
        let q = quote(s);
        proof {
            vstd::utf8::encode_utf8_valid_utf8(q@);
        }
        self.write(q.as_str().as_bytes());
    }

    /// Writes a tree at the current indentation.
    pub fn write_json(&mut self, json: &TextValue)
        requires
            old(self).wf(),
            printable(*json),
            old(self).indentation() + depth(*json) < usize::MAX,
        ensures
            final(self).wf(),
            final(self).written() == old(self).written() + pretty(*json, old(self).indentation()),
            final(self).indentation() == old(self).indentation(),
        decreases json,
    {
        let ghost start = self.buf@;
        let ghost d = self.dent as nat;
        match json {
            TextValue::Null => self.write_ascii(&[0x6Eu8, 0x75u8, 0x6Cu8, 0x6Cu8]),
            TextValue::Bool(b) => {
                if *b {
                    self.write_ascii(&[0x74u8, 0x72u8, 0x75u8, 0x65u8]);
                } else {
                    self.write_ascii(&[0x66u8, 0x61u8, 0x6Cu8, 0x73u8, 0x65u8]);
                }
            },
            TextValue::Int { negative, magnitude } => {
                if *negative && *magnitude != 0 {
                    self.write_char(0x2D);
                }
                self.write_decimal(*magnitude);
            },
            TextValue::Raw(s) => {
                proof {
                    vstd::utf8::encode_utf8_valid_utf8(s@);
                }
                self.write(s.as_str().as_bytes());
            },
            TextValue::Str(s) => self.write_string(s.as_str()),
            TextValue::Array(a) => {
                if a.len() == 0 {
                    self.write_ascii(&[0x5Bu8, 0x5Du8]);
                    return;
                }
                proof {
                    lemma_depth_items(a@, 0, a@.len());
                }
                self.write_char(0x5B);
                self.indent();
                self.new_line();
                assert(decreases_to!(*json => *a));
                assert(decreases_to!(*a => a[0]));
                self.write_json(&a[0]);
                let mut i: usize = 1;
                while i < a.len()
                    invariant
                        *json == TextValue::Array(*a),
                        decreases_to!(*json => *a),
                        printable(*json),
                        d + depth(*json) < usize::MAX,
                        self.wf(),
                        self.dent == d + 1,
                        1 <= i <= a@.len(),
                        self.buf@ == start + seq![0x5Bu8] + nl(d + 1) + pretty(a@[0], d + 1)
                            + pretty_items(a@, i as nat, d + 1),
                    decreases a@.len() - i,
                {
                    proof {
                        lemma_depth_items(a@, i as int, a@.len());
                        assert(decreases_to!(*a => a[i as int]));
                    }
                    let item = &a[i];
                    let ghost before = self.buf@;
                    assert(printable(a@[i as int]));
                    let ghost sep = if is_number(a@[i as int]) {
                        seq![0x2Cu8, 0x20u8]
                    } else {
                        seq![0x2Cu8] + nl(d + 1)
                    };
                    if matches!(item, TextValue::Int { .. } | TextValue::Raw(_)) {
                        self.write_ascii(&[0x2Cu8, 0x20u8]);
                    } else {
                        self.write_char(0x2C);
                        self.new_line();
                    }
                    assert(self.buf@ =~= before + sep);
                    self.write_json(item);
                    proof {
                        assert(pretty_items(a@, (i + 1) as nat, d + 1) == pretty_items(a@, i as nat, d + 1)
                            + sep + pretty(a@[i as int], d + 1));
                        assert(self.buf@ =~= start + seq![0x5Bu8] + nl(d + 1) + pretty(a@[0], d + 1)
                            + pretty_items(a@, (i + 1) as nat, d + 1));
                    }
                    i = i + 1;
                }
                self.dedent();
                self.new_line();
                self.write_char(0x5D);
            },
            TextValue::Object(ms) => {
                if ms.len() == 0 {
                    self.write_ascii(&[0x7Bu8, 0x7Du8]);
                    return;
                }
                proof {
                    lemma_depth_members(ms@, 0, ms@.len());
                }
                self.write_char(0x7B);
                self.indent();
                self.new_line();
                assert(decreases_to!(*json => *ms));
                assert(decreases_to!(*ms => ms[0]));
                self.write_string(ms[0].key.as_str());
                self.write_ascii(&[0x3Au8, 0x20u8]);
                self.write_json(&ms[0].value);
                let mut i: usize = 1;
                while i < ms.len()
                    invariant
                        *json == TextValue::Object(*ms),
                        decreases_to!(*json => *ms),
                        printable(*json),
                        d + depth(*json) < usize::MAX,
                        self.wf(),
                        self.dent == d + 1,
                        1 <= i <= ms@.len(),
                        self.buf@ == start + seq![0x7Bu8] + nl(d + 1) + pretty_member(ms@[0], d + 1)
                            + pretty_members(ms@, i as nat, d + 1),
                    decreases ms@.len() - i,
                {
                    proof {
                        lemma_depth_members(ms@, i as int, ms@.len());
                        assert(decreases_to!(*ms => ms[i as int]));
                    }
                    let ghost before = self.buf@;
                    assert(printable(ms@[i as int].value));
                    self.write_char(0x2C);
                    self.new_line();
                    self.write_string(ms[i].key.as_str());
                    self.write_ascii(&[0x3Au8, 0x20u8]);
                    self.write_json(&ms[i].value);
                    proof {
                        assert(self.buf@ =~= before + seq![0x2Cu8] + nl(d + 1) + pretty_member(
                            ms@[i as int],
                            d + 1,
                        ));
                        assert(self.buf@ =~= start + seq![0x7Bu8] + nl(d + 1) + pretty_member(
                            ms@[0],
                            d + 1,
                        ) + pretty_members(ms@, (i + 1) as nat, d + 1));
                    }
                    i = i + 1;
                }
                self.dedent();
                self.new_line();
                self.write_char(0x7D);
            },
            _ => {},
        }
    }
}

} // verus!
