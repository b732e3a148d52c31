//! Coverage in words, for a log or a display.

use vstd::prelude::*;
use vstd::string::StringExecFns;

use crate::arithmetic::{num, over, product, quotient, times, Arithmetic};
use crate::transform::Coverage;

verus! {

/// `x` in thousands of its unit.
pub open spec fn kilo<R, A: Arithmetic<R>>(a: &A, x: R) -> R {
    quotient(a, x, num(a, 1000))
}

impl<R: Copy> Coverage<R> {
    /// The figures in the units they are shown in: carriers in kHz, modulation
    /// rates and the output rate in Hz, the block in milliseconds.
    pub fn displayed<A: Arithmetic<R>>(&self, a: &A) -> (c: Coverage<R>)
        ensures
            c.min_carrier_hz == kilo(a, self.min_carrier_hz),
            c.max_carrier_hz == kilo(a, self.max_carrier_hz),
            c.min_mod_hz == self.min_mod_hz,
            c.max_mod_hz == self.max_mod_hz,
            c.elbow_carrier_hz == (match self.elbow_carrier_hz {
                Some(hz) => Some(kilo(a, hz)),
                None => None,
            }),
            c.elbow_mod_hz == self.elbow_mod_hz,
            c.out_rate_hz == self.out_rate_hz,
            c.block_s == product(a, self.block_s, num(a, 1000)),
    {
        Coverage {
            min_carrier_hz: over(a, self.min_carrier_hz, a.number(1000)),
            max_carrier_hz: over(a, self.max_carrier_hz, a.number(1000)),
            min_mod_hz: self.min_mod_hz,
            max_mod_hz: self.max_mod_hz,
            elbow_carrier_hz: match self.elbow_carrier_hz {
                Some(hz) => Some(over(a, hz, a.number(1000))),
                None => None,
            },
            elbow_mod_hz: self.elbow_mod_hz,
            out_rate_hz: self.out_rate_hz,
            block_s: times(a, self.block_s, a.number(1000)),
        }
    }
}

/// `before`, the text of `hz` and `after`, or nothing if there is no `hz`.
pub open spec fn clause(before: Seq<char>, hz: Option<String>, after: Seq<char>) -> Seq<char> {
    match hz {
        Some(text) => before + text@ + after,
        None => Seq::empty(),
    }
}

impl Coverage<String> {
    /// What is covered, as one line, given the text of each figure.
    pub open spec fn line(&self) -> Seq<char> {
        "carrier "@ + self.min_carrier_hz@ + ".."@ + self.max_carrier_hz@ + " kHz, modulation "@
            + self.min_mod_hz@ + ".."@ + self.max_mod_hz@ + " Hz, output "@ + self.out_rate_hz@
            + " Hz over a "@ + self.block_s@ + " ms block"@ + clause(
            "; constant-Q down to "@,
            self.elbow_carrier_hz,
            " kHz carrier"@,
        ) + clause("; constant-Q down to "@, self.elbow_mod_hz, " Hz modulation"@)
    }

    /// What is covered, as one line, given the text of each figure in the units
    /// of [`Coverage::displayed`].
    pub fn describe(&self) -> (text: String)
        ensures
            text@ == self.line(),
    {
        let mut text = String::from_str("carrier ");
        text.append(self.min_carrier_hz.as_str());
        text.append("..");
        text.append(self.max_carrier_hz.as_str());
        text.append(" kHz, modulation ");
        text.append(self.min_mod_hz.as_str());
        text.append("..");
        text.append(self.max_mod_hz.as_str());
        text.append(" Hz, output ");
        text.append(self.out_rate_hz.as_str());
        text.append(" Hz over a ");
        text.append(self.block_s.as_str());
        text.append(" ms block");
        let ghost whole = text@;
        if let Some(hz) = &self.elbow_carrier_hz {
            text.append("; constant-Q down to ");
            text.append(hz.as_str());
            text.append(" kHz carrier");
        }
        assert(text@ =~= whole + clause(
            "; constant-Q down to "@,
            self.elbow_carrier_hz,
            " kHz carrier"@,
        ));
        let ghost first = text@;
        if let Some(hz) = &self.elbow_mod_hz {
            text.append("; constant-Q down to ");
            text.append(hz.as_str());
            text.append(" Hz modulation");
        }
        assert(text@ =~= first + clause(
            "; constant-Q down to "@,
            self.elbow_mod_hz,
            " Hz modulation"@,
        ));
        text
    }
}

/// Whether `figure` stands in `text` from `at` on.
pub open spec fn stands_at(text: Seq<char>, at: int, figure: Seq<char>) -> bool {
    &&& 0 <= at <= at + figure.len() <= text.len()
    &&& text.subrange(at, at + figure.len()) == figure
}

/// The line names every figure in turn, each behind the word that says what it is; and
/// where the banks turn constant-bandwidth is said behind all of that, or not at all.
pub proof fn law_line_names_every_figure(
    c: &Coverage<String>,
    text: String,
    bare: &Coverage<String>,
    short: String,
)
    requires
        *bare == (Coverage { elbow_carrier_hz: None, elbow_mod_hz: None, ..*c }),
        call_ensures(Coverage::<String>::describe, (c,), text),
        call_ensures(Coverage::<String>::describe, (bare,), short),
    ensures
        ({
            let k1 = 8int;
            let k2 = k1 + c.min_carrier_hz@.len() + 2;
            let k3 = k2 + c.max_carrier_hz@.len() + 17;
            let k4 = k3 + c.min_mod_hz@.len() + 2;
            let k5 = k4 + c.max_mod_hz@.len() + 12;
            let k6 = k5 + c.out_rate_hz@.len() + 11;
            &&& stands_at(short@, 0, "carrier "@)
            &&& stands_at(short@, k1, c.min_carrier_hz@)
            &&& stands_at(short@, k2, c.max_carrier_hz@)
            &&& stands_at(short@, k3 - 17, " kHz, modulation "@)
            &&& stands_at(short@, k3, c.min_mod_hz@)
            &&& stands_at(short@, k4, c.max_mod_hz@)
            &&& stands_at(short@, k5 - 12, " Hz, output "@)
            &&& stands_at(short@, k5, c.out_rate_hz@)
            &&& stands_at(short@, k6 - 11, " Hz over a "@)
            &&& stands_at(short@, k6, c.block_s@)
            &&& stands_at(short@, k6 + c.block_s@.len(), " ms block"@)
            &&& short@.len() == k6 + c.block_s@.len() + 9
        }),
        stands_at(text@, 0, short@),
        ({
            let first = match c.elbow_carrier_hz {
                Some(hz) => hz@.len() + 33,
                None => 0,
            };
            let second = match c.elbow_mod_hz {
                Some(hz) => hz@.len() + 35,
                None => 0,
            };
            &&& text@.len() == short@.len() + first + second
            &&& c.elbow_carrier_hz matches Some(hz) ==> stands_at(
                text@,
                short@.len() + 21int,
                hz@,
            )
            &&& c.elbow_mod_hz matches Some(hz) ==> stands_at(
                text@,
                short@.len() + first + 21int,
                hz@,
            )
        }),
{
    reveal_strlit("carrier ");
    reveal_strlit("..");
    reveal_strlit(" kHz, modulation ");
    reveal_strlit(" Hz, output ");
    reveal_strlit(" Hz over a ");
    reveal_strlit(" ms block");
    reveal_strlit("; constant-Q down to ");
    reveal_strlit(" kHz carrier");
    reveal_strlit(" Hz modulation");
    lemma_sections(c, short@, bare);
    let p = bare.line();
    let x = clause("; constant-Q down to "@, c.elbow_carrier_hz, " kHz carrier"@);
    let y = clause("; constant-Q down to "@, c.elbow_mod_hz, " Hz modulation"@);
    assert(text@ =~= short@ + x + y);
    assert(text@.subrange(0, short@.len() as int) =~= short@);
    match c.elbow_carrier_hz {
        Some(hz) => {
            let at = short@.len() + 21int;
            assert(text@.subrange(at, at + hz@.len()) =~= hz@);
        },
        None => {},
    }
    match c.elbow_mod_hz {
        Some(hz) => {
            let at = short@.len() + x.len() + 21int;
            assert(text@.subrange(at, at + hz@.len()) =~= hz@);
        },
        None => {},
    }
}

proof fn lemma_sections(c: &Coverage<String>, short: Seq<char>, bare: &Coverage<String>)
    requires
        *bare == (Coverage { elbow_carrier_hz: None, elbow_mod_hz: None, ..*c }),
        short == bare.line(),
        "carrier "@.len() == 8,
        ".."@.len() == 2,
        " kHz, modulation "@.len() == 17,
        " Hz, output "@.len() == 12,
        " Hz over a "@.len() == 11,
        " ms block"@.len() == 9,
    ensures
        ({
            let k1 = 8int;
            let k2 = k1 + c.min_carrier_hz@.len() + 2;
            let k3 = k2 + c.max_carrier_hz@.len() + 17;
            let k4 = k3 + c.min_mod_hz@.len() + 2;
            let k5 = k4 + c.max_mod_hz@.len() + 12;
            let k6 = k5 + c.out_rate_hz@.len() + 11;
            &&& stands_at(short, 0, "carrier "@)
            &&& stands_at(short, k1, c.min_carrier_hz@)
            &&& stands_at(short, k2, c.max_carrier_hz@)
            &&& stands_at(short, k3 - 17, " kHz, modulation "@)
            &&& stands_at(short, k3, c.min_mod_hz@)
            &&& stands_at(short, k4, c.max_mod_hz@)
            &&& stands_at(short, k5 - 12, " Hz, output "@)
            &&& stands_at(short, k5, c.out_rate_hz@)
            &&& stands_at(short, k6 - 11, " Hz over a "@)
            &&& stands_at(short, k6, c.block_s@)
            &&& stands_at(short, k6 + c.block_s@.len(), " ms block"@)
            &&& short.len() == k6 + c.block_s@.len() + 9
        }),
{
    let k1 = 8int;
    let k2 = k1 + c.min_carrier_hz@.len() + 2;
    let k3 = k2 + c.max_carrier_hz@.len() + 17;
    let k4 = k3 + c.min_mod_hz@.len() + 2;
    let k5 = k4 + c.max_mod_hz@.len() + 12;
    let k6 = k5 + c.out_rate_hz@.len() + 11;
    assert(short.len() == k6 + c.block_s@.len() + 9);
    assert(short.subrange(0, 8) =~= "carrier "@);
    assert(short.subrange(k1, k1 + c.min_carrier_hz@.len()) =~= c.min_carrier_hz@);
    assert(short.subrange(k2, k2 + c.max_carrier_hz@.len()) =~= c.max_carrier_hz@);
    assert(short.subrange(k3 - 17, k3) =~= " kHz, modulation "@);
    assert(short.subrange(k3, k3 + c.min_mod_hz@.len()) =~= c.min_mod_hz@);
    assert(short.subrange(k4, k4 + c.max_mod_hz@.len()) =~= c.max_mod_hz@);
    assert(short.subrange(k5 - 12, k5) =~= " Hz, output "@);
    assert(short.subrange(k5, k5 + c.out_rate_hz@.len()) =~= c.out_rate_hz@);
    assert(short.subrange(k6 - 11, k6) =~= " Hz over a "@);
    assert(short.subrange(k6, k6 + c.block_s@.len()) =~= c.block_s@);
    assert(short.subrange(k6 + c.block_s@.len(), short.len() as int) =~= " ms block"@);
}

} // verus!
