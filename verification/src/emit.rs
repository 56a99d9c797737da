//! The mathematical model of the text-emission algorithm: how a chunk of
//! text lands in the destination buffer once indentation is applied.

use vstd::prelude::*;

verus! {

/// True when the next character appended to `buf` would begin a new line:
/// the buffer is empty or its last character is a newline.
pub open spec fn at_line_start(buf: Seq<char>) -> bool {
    buf.len() == 0 || buf.last() == '\n'
}

/// A run of `n` space characters.
pub open spec fn space_run(n: nat) -> Seq<char> {
    Seq::new(n, |i: int| ' ')
}

/// Whether indentation is owed once the text `s` has been emitted, given
/// that it was owed (`owed`) beforehand: a newline leaves indentation owed
/// for the next line, any other character pays the debt off.
pub open spec fn owes_indent(s: Seq<char>, owed: bool) -> bool {
    if s.len() == 0 {
        owed
    } else {
        s.last() == '\n'
    }
}

/// The buffer after the text `s` is emitted at indentation depth `d` onto
/// `buf`, with `owed` saying whether the first character of `s` would open
/// a line. Newlines are copied verbatim; every character that opens a line
/// is preceded by `d` spaces.
pub open spec fn emitted(buf: Seq<char>, d: nat, s: Seq<char>, owed: bool) -> Seq<char>
    decreases s.len(),
{
    if s.len() == 0 {
        buf
    } else {
        let done = emitted(buf, d, s.drop_last(), owed);
        let c = s.last();
        if c == '\n' {
            done.push('\n')
        } else if owes_indent(s.drop_last(), owed) {
            done + space_run(d) + seq![c]
        } else {
            done.push(c)
        }
    }
}

/// The buffer after one whole write call of `s` at depth `d`: indentation
/// is owed for the first line exactly when the buffer is at start of line.
pub open spec fn written(buf: Seq<char>, d: nat, s: Seq<char>) -> Seq<char> {
    emitted(buf, d, s, at_line_start(buf))
}

/// Emitting text that holds no newline, with no indentation owed, appends
/// it to the buffer verbatim.
pub proof fn lemma_emitted_flat(buf: Seq<char>, d: nat, s: Seq<char>)
    requires
        forall|i: int| 0 <= i < s.len() ==> s[i] != '\n',
    ensures
        emitted(buf, d, s, false) == buf + s,
    decreases s.len(),
{
    if s.len() == 0 {
        assert(emitted(buf, d, s, false) =~= buf + s);
    } else {
        lemma_emitted_flat(buf, d, s.drop_last());
        assert(emitted(buf, d, s, false) =~= buf + s);
    }
}

/// Emitting nonempty text that holds no newline, with indentation owed,
/// prepends exactly one run of `d` spaces before the text.
pub proof fn lemma_emitted_indented(buf: Seq<char>, d: nat, s: Seq<char>)
    requires
        s.len() > 0,
        forall|i: int| 0 <= i < s.len() ==> s[i] != '\n',
    ensures
        emitted(buf, d, s, true) == buf + space_run(d) + s,
    decreases s.len(),
{
    if s.len() == 1 {
        assert(s.drop_last().len() == 0);
        assert(emitted(buf, d, s.drop_last(), true) == buf);
        assert(emitted(buf, d, s, true) =~= buf + space_run(d) + s);
    } else {
        lemma_emitted_indented(buf, d, s.drop_last());
        assert(!owes_indent(s.drop_last(), true));
        assert(emitted(buf, d, s, true) =~= buf + space_run(d) + s);
    }
}

/// After emitting `s`, the buffer is at start of line exactly when
/// indentation is owed — provided the starting obligation agreed with the
/// starting buffer.
pub proof fn lemma_emitted_line_start(buf: Seq<char>, d: nat, s: Seq<char>, owed: bool)
    requires
        owed == at_line_start(buf),
    ensures
        at_line_start(emitted(buf, d, s, owed)) == owes_indent(s, owed),
{
    if s.len() > 0 {
        let done = emitted(buf, d, s.drop_last(), owed);
        let c = s.last();
        if c == '\n' {
        } else if owes_indent(s.drop_last(), owed) {
            assert(emitted(buf, d, s, owed).last() == c);
        } else {
            assert(emitted(buf, d, s, owed).last() == c);
        }
    }
}

/// Emission splits over concatenation: emitting `a + b` is emitting `a`,
/// then emitting `b` with whatever indentation obligation `a` left behind.
pub proof fn lemma_emitted_concat(buf: Seq<char>, d: nat, a: Seq<char>, b: Seq<char>, owed: bool)
    ensures
        emitted(buf, d, a + b, owed) == emitted(emitted(buf, d, a, owed), d, b, owes_indent(a, owed)),
    decreases b.len(),
{
    if b.len() == 0 {
        assert(a + b =~= a);
    } else {
        lemma_emitted_concat(buf, d, a, b.drop_last(), owed);
        assert((a + b).drop_last() =~= a + b.drop_last());
        assert((a + b).last() == b.last());
        assert(owes_indent(a + b.drop_last(), owed) == owes_indent(b.drop_last(), owes_indent(a, owed)));
        assert(emitted(buf, d, a + b, owed) =~= emitted(
            emitted(buf, d, a, owed),
            d,
            b,
            owes_indent(a, owed),
        ));
    }
}

/// Splitting a write into fragments changes nothing: writing `a` and then
/// writing `b` leaves the buffer exactly as one write of `a + b` would.
pub proof fn lemma_written_in_fragments(buf: Seq<char>, d: nat, a: Seq<char>, b: Seq<char>)
    ensures
        written(written(buf, d, a), d, b) == written(buf, d, a + b),
{
    lemma_emitted_concat(buf, d, a, b, at_line_start(buf));
    lemma_emitted_line_start(buf, d, a, at_line_start(buf));
}

/// A single write of nonempty, newline-free text onto a buffer at start of
/// line puts exactly `d` spaces before the text and adds no newline.
pub proof fn lemma_written_single_line(buf: Seq<char>, d: nat, s: Seq<char>)
    requires
        at_line_start(buf),
        s.len() > 0,
        forall|i: int| 0 <= i < s.len() ==> s[i] != '\n',
    ensures
        written(buf, d, s) == buf + space_run(d) + s,
{
    lemma_emitted_indented(buf, d, s);
}

/// A single write of newline-free text onto a buffer that is mid-line
/// appends the text verbatim: indentation is applied only at start of
/// line.
pub proof fn lemma_written_midline(buf: Seq<char>, d: nat, s: Seq<char>)
    requires
        !at_line_start(buf),
        forall|i: int| 0 <= i < s.len() ==> s[i] != '\n',
    ensures
        written(buf, d, s) == buf + s,
{
    lemma_emitted_flat(buf, d, s);
}

/// A write with an embedded newline indents each line it opens once: after
/// the first fragment comes the newline, then one run of `d` spaces, then
/// the second fragment — even when the first fragment is empty, so that a
/// line following an empty line is still indented.
pub proof fn lemma_written_embedded_newline(buf: Seq<char>, d: nat, a: Seq<char>, b: Seq<char>)
    requires
        forall|i: int| 0 <= i < a.len() ==> a[i] != '\n',
        b.len() > 0,
        forall|i: int| 0 <= i < b.len() ==> b[i] != '\n',
    ensures
        written(buf, d, a + seq!['\n'] + b) == written(buf, d, a) + seq!['\n'] + space_run(d) + b,
{
    let owed0 = at_line_start(buf);
    lemma_emitted_concat(buf, d, a + seq!['\n'], b, owed0);
    assert((a + seq!['\n'] + b) =~= (a + seq!['\n']) + b);
    lemma_emitted_concat(buf, d, a, seq!['\n'], owed0);
    let mid = emitted(buf, d, a + seq!['\n'], owed0);
    let nl = seq!['\n'];
    assert(nl.drop_last().len() == 0);
    assert(emitted(emitted(buf, d, a, owed0), d, nl.drop_last(), owes_indent(a, owed0))
        == emitted(buf, d, a, owed0));
    assert(mid == emitted(buf, d, a, owed0).push('\n'));
    assert(owes_indent(a + seq!['\n'], owed0));
    lemma_emitted_indented(mid, d, b);
    assert(written(buf, d, a + seq!['\n'] + b) =~= written(buf, d, a) + seq!['\n'] + space_run(d)
        + b);
}

/// The qualifier written before a scoped name: every segment of the scope
/// stack, outermost first, each followed by `::`.
pub open spec fn qualifier(scope: Seq<Seq<char>>) -> Seq<char>
    decreases scope.len(),
{
    if scope.len() == 0 {
        Seq::empty()
    } else {
        qualifier(scope.drop_last()) + scope.last() + seq![':', ':']
    }
}

} // verus!
