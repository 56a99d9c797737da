//! The indentation-tracking writer: a `Formatter` accumulates text in a
//! destination buffer, inserting the right number of leading spaces at the
//! start of every line, and keeps the stack of scope names used to qualify
//! emitted identifiers.

use vstd::prelude::*;

use crate::emit::at_line_start;
use crate::emit::emitted;
use crate::emit::owes_indent;
use crate::emit::qualifier;
use crate::emit::space_run;
use crate::emit::written;

verus! {

/// The abstract state of a formatter: the text emitted so far, the current
/// indentation depth in spaces, and the scope segments, outermost first.
#[verifier::ext_equal]
pub struct FmtView {
    pub out: Seq<char>,
    pub indent: nat,
    pub scope: Seq<Seq<char>>,
}

impl FmtView {
    /// The state after one write call of `s` at the current depth.
    pub open spec fn wrote(self, s: Seq<char>) -> FmtView {
        FmtView { out: written(self.out, self.indent, s), ..self }
    }

    /// The state after `s` is appended to the buffer verbatim, with no
    /// indentation applied.
    pub open spec fn appended(self, s: Seq<char>) -> FmtView {
        FmtView { out: self.out + s, ..self }
    }

    /// The state one indentation unit deeper.
    pub open spec fn deepened(self) -> FmtView {
        FmtView { indent: self.indent + 4, ..self }
    }

    /// The state one indentation unit back out: four spaces come off the
    /// depth, or all of it when less than one unit is left.
    pub open spec fn shallowed(self) -> FmtView {
        if self.indent >= 4 {
            FmtView { indent: (self.indent - 4) as nat, ..self }
        } else {
            FmtView { indent: 0, ..self }
        }
    }

    /// The state after the segment `seg` is pushed onto the scope stack.
    pub open spec fn entered(self, seg: Seq<char>) -> FmtView {
        FmtView { scope: self.scope.push(seg), ..self }
    }

    /// The state after the innermost scope segment is popped; an empty
    /// stack stays empty.
    pub open spec fn left(self) -> FmtView {
        if self.scope.len() > 0 {
            FmtView { scope: self.scope.drop_last(), ..self }
        } else {
            self
        }
    }

    /// The state after a block's opening writes: a separating space when
    /// the buffer is mid-line, then an opening brace and a newline.
    pub open spec fn opened(self) -> FmtView {
        if at_line_start(self.out) {
            self.wrote(seq!['{', '\n'])
        } else {
            self.wrote(seq![' ']).wrote(seq!['{', '\n'])
        }
    }
}

/// A writer that emits C-like source text into a destination buffer,
/// indenting every line it opens by the current depth. One indentation
/// level is four spaces.
pub struct Formatter {
    /// The destination buffer holding the emitted text.
    pub dst: String,
    /// The current indentation depth, counted in space characters.
    pub spaces: usize,
    /// The stack of scope name segments, outermost first.
    pub scope: Vec<String>,
}

impl View for Formatter {
    type V = FmtView;

    open spec fn view(&self) -> FmtView {
        FmtView {
            out: self.dst@,
            indent: self.spaces as nat,
            scope: self.scope.deep_view(),
        }
    }
}

impl Formatter {
    /// Returns a new formatter around the given destination buffer, at
    /// depth zero and with an empty scope stack.
    pub fn new(dst: String) -> (fmt: Formatter)
        ensures
            fmt@.out == dst@,
            fmt@.indent == 0,
            fmt@.scope == Seq::<Seq<char>>::empty(),
    {
        let fmt = Formatter { dst, spaces: 0, scope: Vec::new() };
        proof {
            assert(fmt@.scope =~= Seq::<Seq<char>>::empty());
        }
        fmt
    }

    /// Reports the current indentation depth.
    pub fn get_indent(&self) -> (d: usize)
        ensures
            d == self@.indent,
    {
        self.spaces
    }

    /// Reports whether the destination buffer is at the start of a line:
    /// empty, or ending in a newline.
    pub fn is_start_of_line(&self) -> (r: bool)
        ensures
            r == at_line_start(self@.out),
    {
        let s = self.dst.as_str();
        let n = s.unicode_len();
        if n == 0 {
            true
        } else {
            s.get_char(n - 1) == '\n'
        }
    }

    /// Appends one indentation run, `spaces` space characters, to the
    /// buffer.
    fn push_spaces(&mut self)
        ensures
            final(self).dst@ == old(self).dst@ + space_run(old(self)@.indent),
            final(self).spaces == old(self).spaces,
            final(self).scope == old(self).scope,
    {
        proof {
            reveal_strlit(" ");
        }
        let total = self.spaces;
        let mut k: usize = 0;
        while k < total
            invariant
                k <= total,
                self.spaces == old(self).spaces,
                self.scope == old(self).scope,
                self.dst@ == old(self).dst@ + space_run(k as nat),
                " "@ == seq![' '],
            decreases total - k,
        {
            self.dst.append(" ");
            k = k + 1;
            proof {
                assert(space_run(k as nat) =~= space_run((k - 1) as nat) + seq![' ']);
                assert(self.dst@ =~= old(self).dst@ + space_run(k as nat));
            }
        }
        proof {
            assert(self.dst@ =~= old(self).dst@ + space_run(old(self)@.indent));
        }
    }

    /// Writes `s` into the buffer. The text is split at newlines; every
    /// line the call opens — the first one only when the buffer was at
    /// start of line — is prefixed with `spaces` space characters, and a
    /// trailing newline in `s` is kept. Depth and scope stack are
    /// untouched.
    pub fn write_str(&mut self, s: &str)
        ensures
            final(self)@ == old(self)@.wrote(s@),
            final(self).spaces == old(self).spaces,
            final(self).scope == old(self).scope,
    {
        proof {
            reveal_strlit("\n");
        }
        let ghost owed0 = at_line_start(old(self).dst@);
        let n = s.unicode_len();
        let mut should_indent = self.is_start_of_line();
        let mut i: usize = 0;
        while i < n
            invariant
                i <= n,
                n == s@.len(),
                self.spaces == old(self).spaces,
                self.scope == old(self).scope,
                owed0 == at_line_start(old(self).dst@),
                self.dst@ == emitted(old(self).dst@, old(self)@.indent, s@.take(i as int), owed0),
                should_indent == owes_indent(s@.take(i as int), owed0),
                "\n"@ == seq!['\n'],
            decreases n - i,
        {
            let ghost prefix = s@.take(i as int);
            let c = s.get_char(i);
            if c == '\n' {
                self.dst.append("\n");
                should_indent = true;
            } else {
                if should_indent {
                    self.push_spaces();
                }
                should_indent = false;
                let piece = s.substring_char(i, i + 1);
                self.dst.append(piece);
                proof {
                    assert(piece@ =~= seq![s@[i as int]]);
                }
            }
            i = i + 1;
            proof {
                assert(s@.take(i as int).drop_last() =~= prefix);
                assert(s@.take(i as int).last() == s@[i - 1]);
                if c != '\n' && owes_indent(prefix, owed0) {
                    assert(self.dst@ =~= emitted(old(self).dst@, old(self)@.indent, prefix, owed0)
                        + space_run(old(self)@.indent) + seq![c]);
                }
            }
        }
        proof {
            assert(s@.take(n as int) =~= s@);
        }
    }

    /// Runs `f` on this formatter with the indentation depth one unit —
    /// four spaces — deeper, and takes the unit back off afterwards,
    /// whatever `f` returns. So long as `f` leaves the depth as it found
    /// it, the depth after the call equals the depth before it.
    pub fn indent<F, R>(&mut self, f: F) -> (r: R) where F: FnOnce(&mut Self) -> R,
        requires
            old(self)@.indent + 4 <= usize::MAX,
            forall|m: &mut Self|
                mut_ref_current(m)@ == old(self)@.deepened() ==> #[trigger] call_requires(
                    f,
                    (m,),
                ),
        ensures
            exists|m: &mut Self|
                {
                    &&& mut_ref_current(m)@ == old(self)@.deepened()
                    &&& #[trigger] call_ensures(f, (m,), r)
                    &&& final(self)@ == mut_ref_future(m)@.shallowed()
                },
            (forall|m: &mut Self, any: R|
                call_ensures(f, (m,), any) ==> mut_ref_future(m)@.indent == mut_ref_current(
                    m,
                )@.indent) ==> final(self)@.indent == old(self)@.indent,
    {
        self.spaces = self.spaces + 4;
        let r = f(self);
        if self.spaces >= 4 {
            self.spaces = self.spaces - 4;
        } else {
            self.spaces = 0;
        }
        r
    }

    /// Pushes the segment `name` onto the scope stack, runs `f` on this
    /// formatter, and pops one segment afterwards, whatever `f` returns.
    /// So long as `f` leaves the scope stack as it found it, the stack
    /// after the call equals the stack before it.
    pub fn scope<F, R>(&mut self, name: &str, f: F) -> (r: R) where F: FnOnce(&mut Self) -> R,
        requires
            forall|m: &mut Self|
                mut_ref_current(m)@ == old(self)@.entered(name@) ==> #[trigger] call_requires(
                    f,
                    (m,),
                ),
        ensures
            exists|m: &mut Self|
                {
                    &&& mut_ref_current(m)@ == old(self)@.entered(name@)
                    &&& #[trigger] call_ensures(f, (m,), r)
                    &&& final(self)@ == mut_ref_future(m)@.left()
                },
            (forall|m: &mut Self, any: R|
                call_ensures(f, (m,), any) ==> mut_ref_future(m)@.scope == mut_ref_current(
                    m,
                )@.scope) ==> final(self)@.scope == old(self)@.scope,
    {
        let seg = name.to_owned();
        self.scope.push(seg);
        proof {
            assert(self@.scope =~= old(self)@.scope.push(name@));
        }
        let r = f(self);
        let ghost mid = *self;
        self.scope.pop();
        proof {
            if mid.scope@.len() > 0 {
                assert(self@.scope =~= mid@.scope.drop_last());
            } else {
                assert(self@.scope =~= mid@.scope);
            }
            assert(old(self)@.scope.push(name@).drop_last() =~= old(self)@.scope);
        }
        r
    }

    /// Wraps what `f` writes in a brace-delimited block: a separating
    /// space when the buffer is mid-line, an opening brace and a newline,
    /// the inner content one indentation unit deeper, and — unless `f`
    /// reports failure — a closing brace with no trailing newline. A
    /// failure of `f` is passed through, and the depth is taken back out
    /// either way.
    pub fn block<F, E>(&mut self, f: F) -> (r: Result<(), E>) where
        F: FnOnce(&mut Self) -> Result<(), E>,

        requires
            old(self)@.indent + 4 <= usize::MAX,
            forall|m: &mut Self|
                mut_ref_current(m)@ == old(self)@.opened().deepened() ==> #[trigger] call_requires(
                    f,
                    (m,),
                ),
        ensures
            exists|m: &mut Self|
                {
                    &&& mut_ref_current(m)@ == old(self)@.opened().deepened()
                    &&& #[trigger] call_ensures(f, (m,), r)
                    &&& r is Ok ==> final(self)@ == mut_ref_future(m)@.shallowed().wrote(
                        seq!['}'],
                    )
                    &&& r is Err ==> final(self)@ == mut_ref_future(m)@.shallowed()
                },
    {
        proof {
            reveal_strlit(" ");
            reveal_strlit("{\n");
            reveal_strlit("}");
            assert(" "@ =~= seq![' ']);
            assert("{\n"@ =~= seq!['{', '\n']);
            assert("}"@ =~= seq!['}']);
        }
        if !self.is_start_of_line() {
            self.write_str(" ");
        }
        self.write_str("{\n");
        proof {
            assert(self@ =~= old(self)@.opened());
        }
        let r = self.indent(f);
        if r.is_ok() {
            self.write_str("}");
        }
        r
    }

    /// Writes the fully qualified form of `name`: a leading space, then
    /// every segment on the scope stack, outermost first, each followed by
    /// `::`, then `name` itself. The qualifier segments are appended
    /// verbatim; the space and the name go through the ordinary write
    /// rules.
    pub fn write_scoped_name(&mut self, name: &str)
        ensures
            final(self)@ == old(self)@.wrote(seq![' ']).appended(
                qualifier(old(self)@.scope),
            ).wrote(name@),
    {
        proof {
            reveal_strlit(" ");
            reveal_strlit("::");
            assert(" "@ =~= seq![' ']);
            assert("::"@ =~= seq![':', ':']);
        }
        self.write_str(" ");
        proof {
            assert(qualifier(old(self)@.scope.take(0)) =~= Seq::<char>::empty());
            assert(self.dst@ =~= written(old(self).dst@, old(self)@.indent, seq![' '])
                + qualifier(old(self)@.scope.take(0)));
        }
        let end = self.scope.len();
        let mut i: usize = 0;
        while i < end
            invariant
                i <= end,
                end == self.scope.len(),
                self.spaces == old(self).spaces,
                self.scope == old(self).scope,
                self.dst@ == written(old(self).dst@, old(self)@.indent, seq![' ']) + qualifier(
                    old(self)@.scope.take(i as int),
                ),
                "::"@ == seq![':', ':'],
            decreases end - i,
        {
            let ghost sofar = old(self)@.scope.take(i as int);
            self.dst.append(self.scope[i].as_str());
            self.dst.append("::");
            i = i + 1;
            proof {
                assert(old(self)@.scope.take(i as int).drop_last() =~= sofar);
                assert(old(self)@.scope.take(i as int).last() == old(self).scope@[i - 1]@);
                assert(self.dst@ =~= written(old(self).dst@, old(self)@.indent, seq![' '])
                    + qualifier(old(self)@.scope.take(i as int)));
            }
        }
        proof {
            assert(old(self)@.scope.take(end as int) =~= old(self)@.scope);
        }
        self.write_str(name);
    }
}

} // verus!
