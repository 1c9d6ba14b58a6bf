//! The run configuration and the command-line flag descriptions that the
//! surrounding program parses arguments into.

use vstd::prelude::*;
use vstd::string::StringExecFns;

verus! {

/// What a search run needs: the query, the file to search, and the two
/// mode switches.
pub struct Config {
    /// The pattern to search for.
    pub query: String,
    /// The file whose contents are searched.
    pub file_path: String,
    /// Match regardless of basic-Latin letter case.
    pub ignore_case: bool,
    /// Use the line-filtering search instead of the Boyer-Moore engine.
    pub slow_mode: bool,
}

/// A sequence of `n` spaces.
pub open spec fn spaces(n: int) -> Seq<char> {
    Seq::new(n as nat, |k: int| ' ')
}

/// `s` padded with spaces on the right to width `w` (kept as is when
/// already that wide).
pub open spec fn pad_to(s: Seq<char>, w: int) -> Seq<char> {
    if s.len() >= w {
        s
    } else {
        s + spaces(w - s.len())
    }
}

/// A command-line flag: its short form, its long form, and the help text
/// that describes it.
pub struct Flag {
    /// The short form, such as a dash with one letter.
    pub short: String,
    /// The long form, such as two dashes with a word.
    pub long: String,
    /// One line describing the flag's effect.
    pub description: String,
}

impl Flag {
    /// Builds a flag from its short form, long form and description.
    pub fn new(sh: &str, lo: &str, desc: &str) -> (r: Flag)
        ensures
            r.short@ == sh@,
            r.long@ == lo@,
            r.description@ == desc@,
    {
        let short = String::from_str(sh);
        let long = String::from_str(lo);
        let description = String::from_str(desc);
        Flag { short, long, description }
    }

    /// The flag was given: one of the arguments equals its short or its
    /// long form.
    pub fn found_in(&self, args: &Vec<String>) -> (r: bool)
        ensures
            r == exists|k: int|
                0 <= k < args@.len() && ((#[trigger] args@[k])@ == self.short@ || args@[k]@
                    == self.long@),
    {
        let mut i: usize = 0;
        while i < args.len()
            invariant
                i <= args@.len(),
                forall|k: int|
                    0 <= k < i ==> (#[trigger] args@[k])@ != self.short@ && args@[k]@
                        != self.long@,
            decreases args@.len() - i,
        {
            let a = &args[i];
            if a.eq(&self.short) || a.eq(&self.long) {
                return true;
            }
            i += 1;
        }
        false
    }

    /// One help line: the short form, the long form padded with spaces to
    /// a fixed column, and the description, separated by single spaces.
    pub fn help(&self) -> (r: String)
        ensures
            r@ == self.short@ + seq![' '] + pad_to(self.long@, 15) + seq![' ']
                + self.description@,
    {
        proof {
            reveal_strlit(" ");
        }
        let mut r = String::new();
        r.append(self.short.as_str());
        r.append(" ");
        r.append(self.long.as_str());
        let long_len = self.long.as_str().unicode_len();
        proof {
            assert(r@ =~= self.short@ + seq![' '] + self.long@ + spaces(0));
        }
        let mut i: usize = long_len;
        while i < 15
            invariant
                long_len == self.long@.len(),
                long_len <= i,
                i <= 15 || i == long_len,
                r@ == self.short@ + seq![' '] + self.long@ + spaces(i - long_len),
            decreases 15 - i,
        {
            r.append(" ");
            proof {
                reveal_strlit(" ");
                assert(r@ =~= self.short@ + seq![' '] + self.long@ + spaces(i + 1 - long_len));
            }
            i += 1;
        }
        r.append(" ");
        r.append(self.description.as_str());
        proof {
            assert(r@ =~= self.short@ + seq![' '] + pad_to(self.long@, 15) + seq![' ']
                + self.description@);
        }
        r
    }
}

} // verus!
