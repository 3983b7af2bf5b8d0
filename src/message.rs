use vstd::prelude::*;
use vstd::string::{StrSliceExecFns, StringExecFns};

use crate::config::CompareMode;
use crate::diff::DifferenceRef;
use crate::path::path_text;

verus! {

/// `n` spaces.
pub open spec fn spaces(n: nat) -> Seq<char> {
    Seq::new(n, |i: int| ' ')
}

/// The first `n` characters of `s`, with `pad` inserted after each newline.
pub open spec fn spread(s: Seq<char>, pad: Seq<char>, n: nat) -> Seq<char>
    decreases n,
{
    if n == 0 || n > s.len() {
        Seq::empty()
    } else {
        spread(s, pad, (n - 1) as nat) + if s[n - 1] == '\n' {
            seq!['\n'] + pad
        } else {
            seq![s[n - 1]]
        }
    }
}

/// `s` with every line indented by `by` spaces.
pub open spec fn indent_text(s: Seq<char>, by: nat) -> Seq<char> {
    spaces(by) + spread(s, spaces(by), s.len())
}

/// Indents every line of `s` by `by` spaces.
pub fn indent(s: &str, by: usize) -> (r: String)
    ensures
        r@ == indent_text(s@, by as nat),
{
    proof {
        reveal_strlit("");
        reveal_strlit(" ");
        reveal_strlit("\n");
    }
    let mut pad = String::from_str("");
    let mut k: usize = 0;
    while k < by
        invariant
            k <= by,
            pad@ == spaces(k as nat),
        decreases by - k,
    {
        proof {
            reveal_strlit(" ");
        }
        pad.append(" ");
        assert(pad@ =~= spaces((k + 1) as nat));
        k = k + 1;
    }
    let mut out = String::from_str(pad.as_str());
    let n = s.unicode_len();
    let mut i: usize = 0;
    assert(out@ =~= pad@ + spread(s@, pad@, 0));
    while i < n
        invariant
            i <= n,
            n == s@.len(),
            out@ == pad@ + spread(s@, pad@, i as nat),
        decreases n - i,
    {
        proof {
            reveal_strlit("\n");
        }
        let c = s.get_char(i);
        if c == '\n' {
            out.append("\n");
            out.append(pad.as_str());
        } else {
            let one = s.substring_char(i, i + 1);
            assert(one@ =~= seq![s@[i as int]]);
            out.append(one);
        }
        assert(out@ =~= pad@ + spread(s@, pad@, (i + 1) as nat));
        i = i + 1;
    }
    out
}

/// The message for a difference at the path text `p`, given the texts of
/// the left and right values; each value stands indented by eight spaces
/// under its label.
pub open spec fn message_text(
    mode: CompareMode,
    has_lhs: bool,
    has_rhs: bool,
    p: Seq<char>,
    lt: Seq<char>,
    rt: Seq<char>,
) -> Seq<char> {
    let l = indent_text(lt, 8);
    let r = indent_text(rt, 8);
    match mode {
        CompareMode::Inclusive => if has_lhs {
            "json atoms at path \""@ + p + "\" are not equal:\n    expected:\n"@ + r + "\n    actual:\n"@ + l
        } else {
            "json atom at path \""@ + p + "\" is missing from actual"@
        },
        CompareMode::Strict => if has_lhs && has_rhs {
            "json atoms at path \""@ + p + "\" are not equal:\n    lhs:\n"@ + l + "\n    rhs:\n"@ + r
        } else if has_rhs {
            "json atom at path \""@ + p + "\" is missing from lhs"@
        } else {
            "json atom at path \""@ + p + "\" is missing from rhs"@
        },
    }
}

impl<'a> DifferenceRef<'a> {
    /// The human-readable message for this difference, given the texts of
    /// its left and right values (a text stands unused where its side is
    /// absent).
    pub fn message(&self, lhs_text: &str, rhs_text: &str) -> (r: String)
        requires
            self.lhs is Some || self.rhs is Some,
            !(self.config.compare_mode == CompareMode::Inclusive && self.rhs is None),
        ensures
            r@ == message_text(
                self.config.compare_mode,
                self.lhs is Some,
                self.rhs is Some,
                path_text(self.path),
                lhs_text@,
                rhs_text@,
            ),
    {
        let p = self.path.text();
        let has_lhs = self.lhs.is_some();
        let has_rhs = self.rhs.is_some();
        let mut out = String::from_str("json atom");
        let both = has_lhs && has_rhs;
        let inclusive = match self.config.compare_mode {
            CompareMode::Inclusive => true,
            CompareMode::Strict => false,
        };
        if inclusive && has_lhs || both {
            out.append("s at path \"");
        } else {
            out.append(" at path \"");
        }
        out.append(p.as_str());
        if inclusive && has_lhs {
            let l = indent(lhs_text, 8);
            let r = indent(rhs_text, 8);
            out.append("\" are not equal:\n    expected:\n");
            out.append(r.as_str());
            out.append("\n    actual:\n");
            out.append(l.as_str());
        } else if inclusive {
            out.append("\" is missing from actual");
        } else if both {
            let l = indent(lhs_text, 8);
            let r = indent(rhs_text, 8);
            out.append("\" are not equal:\n    lhs:\n");
            out.append(l.as_str());
            out.append("\n    rhs:\n");
            out.append(r.as_str());
        } else if has_rhs {
            out.append("\" is missing from lhs");
        } else {
            out.append("\" is missing from rhs");
        }
        proof {
            reveal_strlit("json atom");
            reveal_strlit("s at path \"");
            reveal_strlit(" at path \"");
            reveal_strlit("json atoms at path \"");
            reveal_strlit("json atom at path \"");
        }
        assert(out@ =~= message_text(
            self.config.compare_mode,
            self.lhs is Some,
            self.rhs is Some,
            path_text(self.path),
            lhs_text@,
            rhs_text@,
        ));
        out
    }
}

} // verus!
