//! Token-Optimized Object Notation writer.
//!
//! Goal: ~40% fewer tokens than JSON while staying unambiguous for LLMs.
//! Format:
//! ```text
//! key: value
//! list(3):
//!   col_a col_b col_c
//!   row1a row1b row1c
//!   row2a row2b row2c
//! nested:
//!   inner: 1
//! ```
//! Strings with whitespace, leading dashes, or special chars are double-quoted.

use vstd::prelude::*;

use crate::text::{
    chars_of, decimal, lemma_join_split, lemma_split_on_add, lemma_split_on_one, lemma_split_parts,
    lemma_until, lemma_until_is, push_chars, push_decimal, push_signed, same, signed_decimal,
    split_on, until, until_from,
};

verus! {

// ---------------------------------------------------------------------------
// Scalars
// ---------------------------------------------------------------------------

/// A character that a bare scalar cannot hold.
pub open spec fn special(c: char) -> bool {
    c == ' ' || c == '\t' || c == '\n' || c == '\r' || c == '"' || c == '\\' || c == ':' || c == '#'
}

/// A scalar that has to be quoted.
pub open spec fn quoted(s: Seq<char>) -> bool {
    ||| s.len() == 0
    ||| s[0] == '-'
    ||| exists|i: int| 0 <= i < s.len() && special(#[trigger] s[i])
    ||| s == "true"@
    ||| s == "false"@
    ||| s == "null"@
}

/// How one character is written between quotes.
pub open spec fn escape_char(c: char) -> Seq<char> {
    if c == '"' {
        seq!['\\', '"']
    } else if c == '\\' {
        seq!['\\', '\\']
    } else if c == '\n' {
        seq!['\\', 'n']
    } else if c == '\r' {
        seq!['\\', 'r']
    } else if c == '\t' {
        seq!['\\', 't']
    } else {
        seq![c]
    }
}

pub open spec fn escaped(s: Seq<char>) -> Seq<char>
    decreases s.len(),
{
    if s.len() == 0 {
        Seq::empty()
    } else {
        escaped(s.drop_last()) + escape_char(s.last())
    }
}

/// How a string is written as a value.
pub open spec fn scalar(s: Seq<char>) -> Seq<char> {
    if quoted(s) {
        seq!['"'] + escaped(s) + seq!['"']
    } else {
        s
    }
}

/// The character that an escape letter stands for.
pub open spec fn unescape_letter(c: char) -> char {
    if c == 'n' {
        '\n'
    } else if c == 'r' {
        '\r'
    } else if c == 't' {
        '\t'
    } else {
        c
    }
}

/// Reads escaped text back.
pub open spec fn unescaped(s: Seq<char>) -> Seq<char>
    decreases s.len(),
{
    if s.len() == 0 {
        Seq::empty()
    } else if s[0] == '\\' && s.len() >= 2 {
        seq![unescape_letter(s[1])] + unescaped(s.skip(2))
    } else {
        seq![s[0]] + unescaped(s.skip(1))
    }
}

/// Reads a scalar back.
pub open spec fn read_scalar(s: Seq<char>) -> Seq<char> {
    if s.len() >= 2 && s[0] == '"' {
        unescaped(s.subrange(1, s.len() - 1))
    } else {
        s
    }
}

proof fn lemma_escaped_front(s: Seq<char>)
    requires
        s.len() > 0,
    ensures
        escaped(s) == escape_char(s[0]) + escaped(s.drop_first()),
    decreases s.len(),
{
    if s.len() == 1 {
        assert(s.drop_last() =~= Seq::empty());
        assert(s.drop_first() =~= Seq::empty());
        assert(escaped(s) =~= escape_char(s[0]) + escaped(s.drop_first()));
    } else {
        lemma_escaped_front(s.drop_last());
        assert(s.drop_last().drop_first() =~= s.drop_first().drop_last());
        assert(escaped(s) =~= escape_char(s[0]) + escaped(s.drop_first()));
    }
}

proof fn lemma_unescaped(s: Seq<char>)
    ensures
        unescaped(escaped(s)) == s,
    decreases s.len(),
{
    if s.len() > 0 {
        lemma_escaped_front(s);
        lemma_unescaped(s.drop_first());
        let e = escaped(s);
        let rest = escaped(s.drop_first());
        if escape_char(s[0]).len() == 2 {
            assert(e.skip(2) =~= rest);
            assert(unescaped(e) =~= seq![s[0]] + unescaped(rest));
        } else {
            assert(e.skip(1) =~= rest);
            assert(unescaped(e) =~= seq![s[0]] + unescaped(rest));
        }
        assert(s =~= seq![s[0]] + s.drop_first());
    }
}

proof fn lemma_escaped_one_line(s: Seq<char>)
    ensures
        !escaped(s).contains('\n'),
        !escaped(s).contains('\r'),
        !escaped(s).contains('\t'),
    decreases s.len(),
{
    if s.len() > 0 {
        lemma_escaped_one_line(s.drop_last());
        let a = escaped(s.drop_last());
        let b = escape_char(s.last());
        assert forall|i: int| 0 <= i < escaped(s).len() implies escaped(s)[i] != '\n'
            && escaped(s)[i] != '\r' && escaped(s)[i] != '\t' by {
            if i < a.len() {
                assert(a.contains(a[i]));
            } else {
                assert(escaped(s)[i] == b[i - a.len()]);
            }
        }
    }
}

/// A value reads back as the string it was written from: one that begins with a
/// quote is the string escaped between two quotes, any other is the string itself.
pub proof fn law_scalar_reads_back(s: Seq<char>)
    ensures
        read_scalar(scalar(s)) == s,
        scalar(s).len() > 0 && scalar(s)[0] == '"' ==> scalar(s).len() >= 2 && scalar(s).last()
            == '"' && unescaped(scalar(s).subrange(1, scalar(s).len() - 1)) == s,
        scalar(s).len() == 0 || scalar(s)[0] != '"' ==> scalar(s) == s,
{
    if quoted(s) {
        lemma_unescaped(s);
        let w = scalar(s);
        assert(w.subrange(1, w.len() - 1) =~= escaped(s));
    } else if s.len() > 0 {
        assert(!special(s[0]));
    }
}

/// Two different strings are never written the same way.
pub proof fn law_scalar_unambiguous(a: Seq<char>, b: Seq<char>)
    requires
        scalar(a) == scalar(b),
    ensures
        a == b,
{
    law_scalar_reads_back(a);
    law_scalar_reads_back(b);
}

/// A value never holds a line break or a tab, so a field is one line whatever
/// its value.
pub proof fn law_scalar_is_one_line(s: Seq<char>)
    ensures
        !scalar(s).contains('\n'),
        !scalar(s).contains('\r'),
        !scalar(s).contains('\t'),
{
    lemma_escaped_one_line(s);
    let w = scalar(s);
    assert forall|i: int| 0 <= i < w.len() implies w[i] != '\n' && w[i] != '\r' && w[i]
        != '\t' by {
        if !quoted(s) {
            assert(!special(s[i]));
        } else if 0 < i < w.len() - 1 {
            assert(escaped(s).contains(escaped(s)[i - 1]));
        }
    }
}

/// A string is never written like a truth value or like nothing at all: where it
/// reads `true`, `false` or `null`, it is quoted.
pub proof fn law_scalar_is_no_bare_word(s: Seq<char>)
    ensures
        scalar(s) != "true"@,
        scalar(s) != "false"@,
        scalar(s) != "null"@,
{
    reveal_strlit("true");
    reveal_strlit("false");
    reveal_strlit("null");
    if quoted(s) {
        assert(scalar(s)[0] == '"');
    }
}

fn is_special(c: char) -> (r: bool)
    ensures
        r == special(c),
{
    c == ' ' || c == '\t' || c == '\n' || c == '\r' || c == '"' || c == '\\' || c == ':' || c == '#'
}

fn needs_quote(s: &str) -> (r: bool)
    ensures
        r == quoted(s@),
{
    let v = chars_of(s);
    if v.len() == 0 {
        return true;
    }
    if v[0] == '-' {
        return true;
    }
    let mut i: usize = 0;
    while i < v.len()
        invariant
            i <= v@.len(),
            v@ == s@,
            forall|j: int| 0 <= j < i ==> !special(#[trigger] v@[j]),
        decreases v@.len() - i,
    {
        if is_special(v[i]) {
            return true;
        }
        i = i + 1;
    }
    same(s, "true") || same(s, "false") || same(s, "null")
}

fn push_escaped(c: char, buf: &mut String)
    ensures
        final(buf)@ == old(buf)@ + escape_char(c),
{
    let letter: char = match c {
        '"' => '"',
        '\\' => '\\',
        '\n' => 'n',
        '\r' => 'r',
        '\t' => 't',
        _ => {
            buf.push(c);
            return ;
        },
    };
    buf.push('\\');
    buf.push(letter);
}

/// Appends a string as a value.
pub fn escape_scalar(s: &str, buf: &mut String)
    ensures
        final(buf)@ == old(buf)@ + scalar(s@),
{
    if !needs_quote(s) {
        buf.push_str(s);
        return ;
    }
    let ghost start = buf@;
    buf.push('"');
    let v = chars_of(s);
    let mut i: usize = 0;
    while i < v.len()
        invariant
            i <= v@.len(),
            v@ == s@,
            buf@ == start + seq!['"'] + escaped(v@.take(i as int)),
        decreases v@.len() - i,
    {
        push_escaped(v[i], buf);
        proof {
            assert(v@.take(i + 1).drop_last() =~= v@.take(i as int));
        }
        i = i + 1;
    }
    proof {
        assert(v@.take(i as int) =~= s@);
    }
    buf.push('"');
    assert(buf@ =~= start + scalar(s@));
}

fn escape_cell(s: &str, buf: &mut String)
    ensures
        final(buf)@ == old(buf)@ + scalar(s@),
{
    if s.is_empty() {
        proof {
            reveal_strlit("\"\"");
            assert(escaped(s@) =~= Seq::empty());
            assert(scalar(s@) =~= "\"\""@);
        }
        buf.push_str("\"\"");
        return ;
    }
    escape_scalar(s, buf);
}

// ---------------------------------------------------------------------------
// Values
// ---------------------------------------------------------------------------

/// Something that can stand after `key: `.
pub trait ToonValue {
    /// What is written for the value.
    spec fn toon(&self) -> Seq<char>;

    fn write_to(&self, buf: &mut String)
        ensures
            final(buf)@ == old(buf)@ + self.toon(),
    ;
}

impl ToonValue for &str {
    open spec fn toon(&self) -> Seq<char> {
        scalar((*self)@)
    }

    fn write_to(&self, buf: &mut String) {
        escape_scalar(*self, buf);
    }
}

impl ToonValue for String {
    open spec fn toon(&self) -> Seq<char> {
        scalar(self@)
    }

    fn write_to(&self, buf: &mut String) {
        escape_scalar(self.as_str(), buf);
    }
}

impl ToonValue for &String {
    open spec fn toon(&self) -> Seq<char> {
        scalar((*self)@)
    }

    fn write_to(&self, buf: &mut String) {
        escape_scalar(self.as_str(), buf);
    }
}

impl ToonValue for u32 {
    open spec fn toon(&self) -> Seq<char> {
        decimal(*self as nat)
    }

    fn write_to(&self, buf: &mut String) {
        push_decimal(buf, *self as u64);
    }
}

impl ToonValue for u64 {
    open spec fn toon(&self) -> Seq<char> {
        decimal(*self as nat)
    }

    fn write_to(&self, buf: &mut String) {
        push_decimal(buf, *self);
    }
}

impl ToonValue for i32 {
    open spec fn toon(&self) -> Seq<char> {
        signed_decimal(*self as int)
    }

    fn write_to(&self, buf: &mut String) {
        push_signed(buf, *self as i64);
    }
}

impl ToonValue for i64 {
    open spec fn toon(&self) -> Seq<char> {
        signed_decimal(*self as int)
    }

    fn write_to(&self, buf: &mut String) {
        push_signed(buf, *self);
    }
}

impl ToonValue for usize {
    open spec fn toon(&self) -> Seq<char> {
        decimal(*self as nat)
    }

    fn write_to(&self, buf: &mut String) {
        push_decimal(buf, *self as u64);
    }
}

impl ToonValue for bool {
    open spec fn toon(&self) -> Seq<char> {
        if *self {
            "true"@
        } else {
            "false"@
        }
    }

    fn write_to(&self, buf: &mut String) {
        buf.push_str(if *self { "true" } else { "false" });
    }
}

// ---------------------------------------------------------------------------
// Documents
// ---------------------------------------------------------------------------

/// Two spaces for each level.
pub open spec fn padding(depth: nat) -> Seq<char>
    decreases depth,
{
    if depth == 0 {
        Seq::empty()
    } else {
        padding((depth - 1) as nat) + "  "@
    }
}

/// A row of a table: its cells, one space between them.
pub open spec fn row_text(cells: Seq<Seq<char>>) -> Seq<char>
    decreases cells.len(),
{
    if cells.len() == 0 {
        Seq::empty()
    } else if cells.len() == 1 {
        scalar(cells[0])
    } else {
        row_text(cells.drop_last()).push(' ') + scalar(cells.last())
    }
}

/// The rows of a table, one to a line.
pub open spec fn rows_text(depth: nat, rows: Seq<Seq<Seq<char>>>) -> Seq<char>
    decreases rows.len(),
{
    if rows.len() == 0 {
        Seq::empty()
    } else {
        (rows_text(depth, rows.drop_last()) + padding(depth) + row_text(rows.last())).push('\n')
    }
}

/// The lines of `content`, each behind `pad`. A line break at the very end
/// starts no further line.
pub open spec fn indented(pad: Seq<char>, content: Seq<char>) -> Seq<char>
    decreases content.len(),
    via indented_decreases
{
    if content.len() == 0 {
        Seq::empty()
    } else {
        let n = until(content, '\n');
        (pad + content.take(n)).push('\n') + (if n < content.len() {
            indented(pad, content.skip(n + 1))
        } else {
            Seq::empty()
        })
    }
}

#[via_fn]
proof fn indented_decreases(pad: Seq<char>, content: Seq<char>) {
    lemma_until(content, '\n');
}

pub open spec fn field_text(depth: nat, key: Seq<char>, value: Seq<char>) -> Seq<char> {
    (padding(depth) + key + ": "@ + value).push('\n')
}

pub open spec fn table_text(
    depth: nat,
    key: Seq<char>,
    cols: Seq<Seq<char>>,
    rows: Seq<Seq<Seq<char>>>,
) -> Seq<char> {
    if rows.len() == 0 {
        padding(depth) + key + "(0): empty\n"@
    } else {
        (padding(depth) + key + "("@ + decimal(rows.len()) + "):\n"@ + padding(depth + 1)
            + row_text(cols)).push('\n') + rows_text(depth + 1, rows)
    }
}

pub open spec fn block_text(depth: nat, key: Seq<char>, content: Seq<char>) -> Seq<char> {
    padding(depth) + key + ": |\n"@ + indented(padding(depth + 1), content)
}

pub open spec fn hint_text(depth: nat, msg: Seq<char>) -> Seq<char> {
    (padding(depth) + "hint: "@ + msg).push('\n')
}

/// The characters of each string of a slice.
pub open spec fn str_views(s: Seq<&str>) -> Seq<Seq<char>> {
    Seq::new(s.len(), |i: int| s[i]@)
}

/// The characters of each string of a vector.
pub open spec fn string_views(s: Seq<String>) -> Seq<Seq<char>> {
    Seq::new(s.len(), |i: int| s[i]@)
}

/// The characters of each cell of each row.
pub open spec fn row_views(s: Seq<Vec<String>>) -> Seq<Seq<Seq<char>>> {
    Seq::new(s.len(), |i: int| string_views(s[i]@))
}

/// A document under construction.
#[derive(Debug, Clone)]
pub struct Toon {
    buf: String,
    indent: usize,
}

impl Toon {
    /// What has been written so far.
    pub closed spec fn text(&self) -> Seq<char> {
        self.buf@
    }

    /// The level that the next line is written at.
    pub closed spec fn depth(&self) -> nat {
        self.indent as nat
    }

    /// One more level can be opened.
    pub open spec fn wf(&self) -> bool {
        self.depth() < usize::MAX
    }

    pub fn new() -> (r: Self)
        ensures
            r.text() == Seq::<char>::empty(),
            r.depth() == 0,
    {
        Self { buf: String::new(), indent: 0 }
    }

    pub fn into_string(self) -> (r: String)
        ensures
            r@ == self.text(),
    {
        self.buf
    }

    fn pad(&mut self)
        ensures
            final(self).text() == old(self).text() + padding(old(self).depth()),
            final(self).depth() == old(self).depth(),
    {
        let ghost start = self.buf@;
        let n: usize = self.indent;
        let mut i: usize = 0;
        while i < n
            invariant
                i <= n,
                self.indent == n,
                self.buf@ == start + padding(i as nat),
            decreases n - i,
        {
            self.buf.push_str("  ");
            i = i + 1;
        }
    }

    pub fn field<V: ToonValue>(&mut self, key: &str, val: V) -> (ret: &mut Self)
        ensures
            ret.text() == old(self).text() + field_text(old(self).depth(), key@, val.toon()),
            ret.depth() == old(self).depth(),
            *final(self) == *final(ret),
    {
        let ghost start = self.text();
        self.pad();
        self.buf.push_str(key);
        self.buf.push_str(": ");
        val.write_to(&mut self.buf);
        self.buf.push('\n');
        assert(self.buf@ =~= start + field_text(self.depth(), key@, val.toon()));
        self
    }

    fn row_of_strs(&mut self, cells: &[&str])
        ensures
            final(self).text() == old(self).text() + row_text(str_views(cells@)),
            final(self).depth() == old(self).depth(),
    {
        let ghost start = self.buf@;
        let ghost views = str_views(cells@);
        let mut i: usize = 0;
        while i < cells.len()
            invariant
                i <= cells@.len(),
                views == str_views(cells@),
                self.indent == old(self).indent,
                self.buf@ == start + row_text(views.take(i as int)),
            decreases cells@.len() - i,
        {
            if i > 0 {
                self.buf.push(' ');
            }
            escape_cell(cells[i], &mut self.buf);
            proof {
                assert(views.take(i + 1).drop_last() =~= views.take(i as int));
                assert(views.take(i + 1).last() == cells@[i as int]@);
            }
            i = i + 1;
        }
        assert(views.take(i as int) =~= views);
    }

    fn row_of_strings(&mut self, cells: &Vec<String>)
        ensures
            final(self).text() == old(self).text() + row_text(string_views(cells@)),
            final(self).depth() == old(self).depth(),
    {
        let ghost start = self.buf@;
        let ghost views = string_views(cells@);
        let mut i: usize = 0;
        while i < cells.len()
            invariant
                i <= cells@.len(),
                views == string_views(cells@),
                self.indent == old(self).indent,
                self.buf@ == start + row_text(views.take(i as int)),
            decreases cells@.len() - i,
        {
            if i > 0 {
                self.buf.push(' ');
            }
            escape_cell(cells[i].as_str(), &mut self.buf);
            proof {
                assert(views.take(i + 1).drop_last() =~= views.take(i as int));
                assert(views.take(i + 1).last() == cells@[i as int]@);
            }
            i = i + 1;
        }
        assert(views.take(i as int) =~= views);
    }

    /// One-off table that takes pre-formatted rows.
    pub fn table_strs(&mut self, key: &str, cols: &[&str], rows: &[Vec<String>]) -> (ret: &mut Self)
        requires
            old(self).wf(),
        ensures
            ret.text() == old(self).text() + table_text(
                old(self).depth(),
                key@,
                str_views(cols@),
                row_views(rows@),
            ),
            ret.depth() == old(self).depth(),
            *final(self) == *final(ret),
    {
        let ghost start = self.text();
        let ghost d = self.depth();
        let ghost views = row_views(rows@);
        self.pad();
        self.buf.push_str(key);
        if rows.len() == 0 {
            self.buf.push_str("(0): empty\n");
            assert(self.buf@ =~= start + table_text(d, key@, str_views(cols@), views));
            return self;
        }
        self.buf.push_str("(");
        push_decimal(&mut self.buf, rows.len() as u64);
        self.buf.push_str("):\n");
        self.indent = self.indent + 1;
        self.pad();
        self.row_of_strs(cols);
        self.buf.push('\n');
        let ghost head = self.buf@;
        let mut i: usize = 0;
        while i < rows.len()
            invariant
                i <= rows@.len(),
                views == row_views(rows@),
                self.depth() == d + 1,
                self.text() == head + rows_text(d + 1, views.take(i as int)),
            decreases rows@.len() - i,
        {
            self.pad();
            self.row_of_strings(&rows[i]);
            self.buf.push('\n');
            proof {
                assert(views.take(i + 1).drop_last() =~= views.take(i as int));
                assert(views.take(i + 1).last() == string_views(rows@[i as int]@));
                assert(self.buf@ =~= head + rows_text(d + 1, views.take(i + 1)));
            }
            i = i + 1;
        }
        self.indent = self.indent - 1;
        proof {
            assert(views.take(i as int) =~= views);
            assert(self.buf@ =~= start + table_text(d, key@, str_views(cols@), views));
        }
        self
    }

    /// Emit a `key: |` block followed by `content` indented by 2 spaces per
    /// line.
    pub fn block(&mut self, key: &str, content: &str) -> (ret: &mut Self)
        requires
            old(self).wf(),
        ensures
            ret.text() == old(self).text() + block_text(old(self).depth(), key@, content@),
            ret.depth() == old(self).depth(),
            *final(self) == *final(ret),
    {
        let ghost start = self.text();
        let ghost d = self.depth();
        self.pad();
        self.buf.push_str(key);
        self.buf.push_str(": |\n");
        let v = chars_of(content);
        let ghost pad = padding(d + 1);
        let ghost head = self.buf@;
        assert(v@.skip(0) =~= v@);
        let mut at: usize = 0;
        while at < v.len()
            invariant
                at <= v@.len(),
                d < usize::MAX,
                v@ == content@,
                pad == padding(d + 1),
                self.depth() == d,
                self.text() + indented(pad, v@.skip(at as int)) == head + indented(pad, v@),
            decreases v@.len() - at,
        {
            let ghost before = self.text();
            let ghost rest = v@.skip(at as int);
            let end: usize = until_from(&v, '\n', at);
            self.indent = self.indent + 1;
            self.pad();
            self.indent = self.indent - 1;
            push_chars(&mut self.buf, &v, at, end);
            self.buf.push('\n');
            proof {
                let n = end - at;
                assert(rest.take(n) =~= v@.subrange(at as int, end as int));
                if n < rest.len() {
                    assert(rest.skip(n + 1) =~= v@.skip(end + 1));
                } else {
                    assert(v@.skip(v@.len() as int) =~= Seq::empty());
                }
                assert(before + indented(pad, rest) =~= self.text() + (if n < rest.len() {
                    indented(pad, rest.skip(n + 1))
                } else {
                    Seq::empty()
                }));
            }
            at = if end < v.len() {
                end + 1
            } else {
                end
            };
        }
        proof {
            assert(v@.skip(at as int) =~= Seq::empty());
            assert(self.text() =~= start + block_text(d, key@, content@));
        }
        self
    }

    pub fn hint(&mut self, msg: &str) -> (ret: &mut Self)
        ensures
            ret.text() == old(self).text() + hint_text(old(self).depth(), msg@),
            ret.depth() == old(self).depth(),
            *final(self) == *final(ret),
    {
        let ghost start = self.text();
        self.pad();
        self.buf.push_str("hint: ");
        self.buf.push_str(msg);
        self.buf.push('\n');
        assert(self.buf@ =~= start + hint_text(self.depth(), msg@));
        self
    }
}

impl Default for Toon {
    fn default() -> (r: Self)
        ensures
            r.text() == Seq::<char>::empty(),
            r.depth() == 0,
    {
        Self::new()
    }
}

// ---------------------------------------------------------------------------
// Reading rows back
// ---------------------------------------------------------------------------

/// Where the text between quotes ends, in what follows the opening quote.
pub open spec fn closing_quote(s: Seq<char>) -> int
    decreases s.len(),
{
    if s.len() == 0 || s[0] == '"' {
        0
    } else if s[0] == '\\' && s.len() >= 2 {
        2 + closing_quote(s.skip(2))
    } else {
        1 + closing_quote(s.skip(1))
    }
}

/// How long the first cell of a row is.
pub open spec fn cell_len(s: Seq<char>) -> int {
    if s.len() > 0 && s[0] == '"' {
        closing_quote(s.skip(1)) + 2
    } else {
        until(s, ' ')
    }
}

/// The cells that a row stands for.
pub open spec fn read_row(s: Seq<char>) -> Seq<Seq<char>>
    decreases s.len(),
{
    let n = cell_len(s);
    if 0 <= n < s.len() {
        seq![read_scalar(s.take(n))] + read_row(s.skip(n + 1))
    } else {
        seq![read_scalar(s)]
    }
}

proof fn lemma_closing_quote(s: Seq<char>, rest: Seq<char>)
    ensures
        closing_quote(escaped(s) + (seq!['"'] + rest)) == escaped(s).len(),
    decreases s.len(),
{
    let tail = seq!['"'] + rest;
    if s.len() == 0 {
        assert(escaped(s) + tail =~= tail);
    } else {
        lemma_escaped_front(s);
        lemma_closing_quote(s.drop_first(), rest);
        let e = escaped(s) + tail;
        let later = escaped(s.drop_first()) + tail;
        if escape_char(s[0]).len() == 2 {
            assert(e.skip(2) =~= later);
        } else {
            assert(e.skip(1) =~= later);
        }
    }
}

proof fn lemma_cell_len(cell: Seq<char>, rest: Seq<char>)
    ensures
        cell_len(scalar(cell) + (seq![' '] + rest)) == scalar(cell).len(),
{
    let w = scalar(cell);
    let all = w + (seq![' '] + rest);
    if quoted(cell) {
        assert(all.skip(1) =~= escaped(cell) + (seq!['"'] + (seq![' '] + rest)));
        lemma_closing_quote(cell, seq![' '] + rest);
    } else {
        assert forall|i: int| 0 <= i < w.len() implies w[i] != ' ' by {
            assert(!special(cell[i]));
        }
        assert(!special(cell[0]));
        lemma_until_is(all, ' ', w.len() as int);
    }
}

proof fn lemma_last_cell_len(cell: Seq<char>)
    ensures
        cell_len(scalar(cell)) == scalar(cell).len(),
{
    let w = scalar(cell);
    if quoted(cell) {
        let none = Seq::<char>::empty();
        assert(w.skip(1) =~= escaped(cell) + (seq!['"'] + none));
        lemma_closing_quote(cell, none);
    } else {
        assert forall|i: int| 0 <= i < w.len() implies w[i] != ' ' by {
            assert(!special(cell[i]));
        }
        assert(!special(cell[0]));
        lemma_until(w, ' ');
        if until(w, ' ') < w.len() {
            assert(w[until(w, ' ')] == ' ');
        }
    }
}

proof fn lemma_row_front(cells: Seq<Seq<char>>)
    requires
        cells.len() >= 2,
    ensures
        row_text(cells) == scalar(cells[0]) + (seq![' '] + row_text(cells.skip(1))),
    decreases cells.len(),
{
    let before = cells.drop_last();
    let tail = cells.skip(1);
    assert(tail.last() == cells.last());
    if cells.len() == 2 {
        assert(row_text(before) == scalar(cells[0]));
        assert(row_text(tail) == scalar(cells[1]));
    } else {
        lemma_row_front(before);
        assert(before.skip(1) =~= tail.drop_last());
    }
    assert(row_text(cells) =~= scalar(cells[0]) + (seq![' '] + row_text(tail)));
}

/// A row of a table reads back as its cells, whatever they hold.
pub proof fn law_row_reads_back(cells: Seq<Seq<char>>)
    requires
        cells.len() > 0,
    ensures
        read_row(row_text(cells)) == cells,
    decreases cells.len(),
{
    let w = scalar(cells[0]);
    law_scalar_reads_back(cells[0]);
    if cells.len() == 1 {
        lemma_last_cell_len(cells[0]);
        assert(read_row(row_text(cells)) =~= cells);
    } else {
        let rest = row_text(cells.skip(1));
        lemma_row_front(cells);
        lemma_cell_len(cells[0], rest);
        law_row_reads_back(cells.skip(1));
        let all = row_text(cells);
        assert(all.take(w.len() as int) =~= w);
        assert(all.skip(w.len() as int + 1) =~= rest);
        assert(read_row(all) =~= cells);
    }
}

// ---------------------------------------------------------------------------
// Reading documents back
// ---------------------------------------------------------------------------

proof fn lemma_padding(depth: nat)
    ensures
        padding(depth) == Seq::new((2 * depth) as nat, |i: int| ' '),
        !padding(depth).contains('\n'),
    decreases depth,
{
    if depth > 0 {
        lemma_padding((depth - 1) as nat);
        reveal_strlit("  ");
    }
    assert(padding(depth) =~= Seq::new((2 * depth) as nat, |i: int| ' '));
}

/// A text without the one line break that it may end with.
pub open spec fn without_last_break(s: Seq<char>) -> Seq<char> {
    if s.len() > 0 && s.last() == '\n' {
        s.drop_last()
    } else {
        s
    }
}

proof fn lemma_indented(pad: Seq<char>, content: Seq<char>)
    requires
        !pad.contains('\n'),
        content.len() > 0,
    ensures
        ({
            let parts = split_on(without_last_break(content), '\n');
            split_on(indented(pad, content), '\n') == Seq::new(
                parts.len(),
                |i: int| pad + parts[i],
            ).push(Seq::empty())
        }),
    decreases content.len(),
{
    let c = without_last_break(content);
    let parts = split_on(c, '\n');
    let n = until(content, '\n');
    lemma_until(content, '\n');
    let line = pad + content.take(n);
    let text = indented(pad, content);
    assert(!line.contains('\n'));
    lemma_split_on_one(line, '\n');
    if n + 1 < content.len() {
        let rest = content.skip(n + 1);
        lemma_indented(pad, rest);
        lemma_split_on_add(line, indented(pad, rest), '\n');
        assert(text =~= line.push('\n') + indented(pad, rest));
        let later = split_on(without_last_break(rest), '\n');
        assert(rest.last() == content.last());
        assert(c =~= content.take(n).push('\n') + without_last_break(rest));
        assert(!content.take(n).contains('\n'));
        lemma_split_on_one(content.take(n), '\n');
        lemma_split_on_add(content.take(n), without_last_break(rest), '\n');
        assert(parts =~= seq![content.take(n)] + later);
        assert(split_on(text, '\n') =~= Seq::new(parts.len(), |i: int| pad + parts[i]).push(
            Seq::empty(),
        ));
    } else {
        let none = Seq::<char>::empty();
        assert(indented(pad, none) =~= none);
        if n < content.len() {
            assert(content.skip(n + 1) =~= none);
        }
        assert(text =~= line.push('\n') + none);
        assert(c =~= content.take(n)) by {
            if n == content.len() {
                assert(content.last() != '\n');
            }
        }
        lemma_split_on_one(none, '\n');
        lemma_split_on_add(line, none, '\n');
        assert(!c.contains('\n'));
        lemma_split_on_one(c, '\n');
        assert(split_on(text, '\n') =~= Seq::new(parts.len(), |i: int| pad + parts[i]).push(
            Seq::empty(),
        ));
    }
}

/// A block reads back: behind its first line there is one line for each line of
/// the content, blank ones included, in order and with nothing changed but the
/// two spaces for each level before it.
pub proof fn law_block_reads_back(depth: nat, key: Seq<char>, content: Seq<char>)
    ensures
        ({
            let text = block_text(depth, key, content);
            let head = Seq::new((2 * depth) as nat, |i: int| ' ') + key + ": |\n"@;
            let lines = split_on(text.skip(head.len() as int), '\n');
            let parts = split_on(without_last_break(content), '\n');
            let width = (2 * depth + 2) as int;
            &&& text.len() >= head.len()
            &&& text.take(head.len() as int) == head
            &&& content.len() == 0 ==> text == head
            &&& content.len() > 0 ==> {
                &&& lines.len() == parts.len() + 1
                &&& lines.last().len() == 0
                &&& forall|i: int|
                    0 <= i < parts.len() ==> {
                        &&& (#[trigger] lines[i]).take(width) == Seq::new(
                            width as nat,
                            |k: int| ' ',
                        )
                        &&& lines[i].skip(width) == parts[i]
                    }
            }
        }),
{
    let text = block_text(depth, key, content);
    let head = Seq::new((2 * depth) as nat, |i: int| ' ') + key + ": |\n"@;
    let pad = padding(depth + 1);
    let body = indented(pad, content);
    lemma_padding(depth);
    lemma_padding(depth + 1);
    assert(text =~= head + body);
    assert(text.take(head.len() as int) =~= head);
    assert(text.skip(head.len() as int) =~= body);
    if content.len() > 0 {
        lemma_indented(pad, content);
        let lines = split_on(body, '\n');
        let parts = split_on(without_last_break(content), '\n');
        assert forall|i: int| 0 <= i < parts.len() implies {
            &&& (#[trigger] lines[i]).take(pad.len() as int) == pad
            &&& lines[i].skip(pad.len() as int) == parts[i]
        } by {
            assert(lines[i] == pad + parts[i]);
            assert(lines[i].take(pad.len() as int) =~= pad);
            assert(lines[i].skip(pad.len() as int) =~= parts[i]);
        }
    }
}

/// Two contents have the same block only where they differ by nothing but one
/// line break at the end.
pub proof fn law_block_is_unambiguous(depth: nat, key: Seq<char>, a: Seq<char>, b: Seq<char>)
    requires
        block_text(depth, key, a) == block_text(depth, key, b),
    ensures
        a == b || a == b.push('\n') || b == a.push('\n'),
{
    law_block_reads_back(depth, key, a);
    law_block_reads_back(depth, key, b);
    let head = Seq::new((2 * depth) as nat, |i: int| ' ') + key + ": |\n"@;
    let width = (2 * depth + 2) as int;
    if a.len() > 0 && b.len() > 0 {
        let x = split_on(without_last_break(a), '\n');
        let y = split_on(without_last_break(b), '\n');
        let lines = split_on(block_text(depth, key, a).skip(head.len() as int), '\n');
        assert forall|i: int| 0 <= i < x.len() implies x[i] == y[i] by {
            assert(lines[i].skip(width) == x[i]);
            assert(lines[i].skip(width) == y[i]);
        }
        assert(x =~= y);
        lemma_join_split(without_last_break(a), '\n');
        lemma_join_split(without_last_break(b), '\n');
        assert(without_last_break(a) == without_last_break(b));
        if a.last() == '\n' {
            assert(a =~= without_last_break(a).push('\n'));
        }
        if b.last() == '\n' {
            assert(b =~= without_last_break(b).push('\n'));
        }
    } else if a.len() == 0 && b.len() > 0 {
        let none = block_text(depth, key, b).skip(head.len() as int);
        assert(none =~= Seq::empty());
        lemma_split_on_one(none, '\n');
        lemma_split_parts(without_last_break(b), '\n');
    } else if a.len() > 0 {
        let none = block_text(depth, key, a).skip(head.len() as int);
        assert(none =~= Seq::empty());
        lemma_split_on_one(none, '\n');
        lemma_split_parts(without_last_break(a), '\n');
    } else {
        assert(a =~= b);
    }
}

proof fn lemma_row_is_one_line(cells: Seq<Seq<char>>)
    ensures
        !row_text(cells).contains('\n'),
    decreases cells.len(),
{
    if cells.len() == 1 {
        law_scalar_is_one_line(cells[0]);
    } else if cells.len() > 1 {
        lemma_row_is_one_line(cells.drop_last());
        law_scalar_is_one_line(cells.last());
        let a = row_text(cells.drop_last());
        let b = scalar(cells.last());
        assert forall|i: int| 0 <= i < row_text(cells).len() implies row_text(cells)[i] != '\n' by {
            if i < a.len() {
                assert(a.contains(a[i]));
            } else if i > a.len() {
                assert(b.contains(b[i - a.len() - 1]));
            }
        }
    }
}

proof fn lemma_rows_lines(depth: nat, rows: Seq<Seq<Seq<char>>>, before: Seq<char>)
    requires
        rows.len() > 0,
        !before.contains('\n'),
    ensures
        split_on(before.push('\n') + rows_text(depth, rows), '\n') == (seq![before] + Seq::new(
            rows.len(),
            |i: int| padding(depth) + row_text(rows[i]),
        )).push(Seq::empty()),
    decreases rows.len(),
{
    let earlier = rows.drop_last();
    let line = padding(depth) + row_text(rows.last());
    let none = Seq::<char>::empty();
    lemma_padding(depth);
    lemma_row_is_one_line(rows.last());
    assert(!line.contains('\n'));
    lemma_split_on_one(line, '\n');
    lemma_split_on_one(none, '\n');
    lemma_split_on_one(before, '\n');
    let lines = Seq::new(rows.len(), |i: int| padding(depth) + row_text(rows[i]));
    let whole = before.push('\n') + rows_text(depth, rows);
    if rows.len() == 1 {
        assert(rows_text(depth, earlier) =~= none);
        assert(whole =~= (before.push('\n') + line).push('\n') + none);
        lemma_split_on_add(before.push('\n') + line, none, '\n');
        lemma_split_on_add(before, line, '\n');
        assert(split_on(whole, '\n') =~= (seq![before] + lines).push(none));
    } else {
        lemma_rows_lines(depth, earlier, before);
        let text = before.push('\n') + rows_text(depth, earlier);
        assert(text.last() == '\n');
        let body = text.drop_last();
        assert(text =~= body.push('\n') + none);
        lemma_split_on_add(body, none, '\n');
        assert(whole =~= (body.push('\n') + line).push('\n') + none);
        lemma_split_on_add(body.push('\n') + line, none, '\n');
        lemma_split_on_add(body, line, '\n');
        let was = Seq::new(earlier.len(), |i: int| padding(depth) + row_text(earlier[i]));
        assert(split_on(text, '\n').drop_last() =~= split_on(body, '\n'));
        assert(split_on(text, '\n').drop_last() =~= seq![before] + was);
        assert(lines =~= was.push(line));
        assert(split_on(whole, '\n') =~= (seq![before] + lines).push(none));
    }
}

/// A table reads back: behind a first line that says how many rows there are
/// stand the names of the columns and then the rows, each on a line of its own
/// and each as its cells, whatever they hold.
pub proof fn law_table_reads_back(
    depth: nat,
    key: Seq<char>,
    cols: Seq<Seq<char>>,
    rows: Seq<Seq<Seq<char>>>,
)
    requires
        rows.len() > 0,
        cols.len() > 0,
        forall|i: int| 0 <= i < rows.len() ==> (#[trigger] rows[i]).len() > 0,
    ensures
        ({
            let text = table_text(depth, key, cols, rows);
            let head = Seq::new((2 * depth) as nat, |i: int| ' ') + key + "("@ + decimal(rows.len())
                + "):\n"@;
            let lines = split_on(text.skip(head.len() as int), '\n');
            let width = (2 * depth + 2) as int;
            &&& text.len() >= head.len()
            &&& text.take(head.len() as int) == head
            &&& lines.len() == rows.len() + 2
            &&& lines.last().len() == 0
            &&& lines[0].take(width) == Seq::new(width as nat, |k: int| ' ')
            &&& read_row(lines[0].skip(width)) == cols
            &&& forall|i: int|
                0 < i <= rows.len() ==> {
                    &&& (#[trigger] lines[i]).take(width) == Seq::new(width as nat, |k: int| ' ')
                    &&& read_row(lines[i].skip(width)) == rows[i - 1]
                }
        }),
{
    let text = table_text(depth, key, cols, rows);
    let head = Seq::new((2 * depth) as nat, |i: int| ' ') + key + "("@ + decimal(rows.len())
        + "):\n"@;
    let pad = padding(depth + 1);
    let width = pad.len() as int;
    lemma_padding(depth);
    lemma_padding(depth + 1);
    lemma_row_is_one_line(cols);
    let first = pad + row_text(cols);
    assert(!first.contains('\n'));
    let body = first.push('\n') + rows_text(depth + 1, rows);
    assert(text =~= head + body);
    assert(text.take(head.len() as int) =~= head);
    assert(text.skip(head.len() as int) =~= body);
    lemma_rows_lines(depth + 1, rows, first);
    let lines = split_on(body, '\n');
    law_row_reads_back(cols);
    assert(lines[0] == first);
    assert(first.take(width) =~= pad);
    assert(first.skip(width) =~= row_text(cols));
    assert forall|i: int| 0 < i <= rows.len() implies {
        &&& (#[trigger] lines[i]).take(width) == pad
        &&& read_row(lines[i].skip(width)) == rows[i - 1]
    } by {
        let row = rows[i - 1];
        law_row_reads_back(row);
        assert(lines[i] == pad + row_text(row));
        assert(lines[i].take(width) =~= pad);
        assert(lines[i].skip(width) =~= row_text(row));
    }
}

/// A field reads back: what stands between the key and the line break is one
/// line, and it is the string that was put in.
pub proof fn law_field_reads_back(depth: nat, key: Seq<char>, value: Seq<char>)
    ensures
        ({
            let text = field_text(depth, key, scalar(value));
            let head = Seq::new((2 * depth) as nat, |i: int| ' ') + key + ": "@;
            let rest = text.skip(head.len() as int);
            &&& text.len() > head.len()
            &&& text.take(head.len() as int) == head
            &&& until(rest, '\n') == rest.len() - 1
            &&& read_scalar(rest.drop_last()) == value
        }),
{
    let text = field_text(depth, key, scalar(value));
    let head = Seq::new((2 * depth) as nat, |i: int| ' ') + key + ": "@;
    let v = scalar(value);
    lemma_padding(depth);
    law_scalar_reads_back(value);
    law_scalar_is_one_line(value);
    assert(text =~= head + v.push('\n'));
    assert(text.take(head.len() as int) =~= head);
    let rest = text.skip(head.len() as int);
    assert(rest =~= v.push('\n'));
    assert(rest.drop_last() =~= v);
    assert forall|i: int| 0 <= i < v.len() implies rest[i] != '\n' by {
        assert(v.contains(v[i]));
    }
    lemma_until_is(rest, '\n', v.len() as int);
}

} // verus!
