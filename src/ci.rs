use vstd::prelude::*;
use crate::tokens::{
    efficiency_grade, grade_rank, grade_rank_spec, grade_spec, letter_spec, ratio, Ratio,
};

verus! {

/// Which checks of the CI gate failed.
#[derive(Clone, Copy, Debug, PartialEq, Eq, Structural)]
pub struct CiVerdict {
    pub token_budget_exceeded: bool,
    pub ratio_too_high: bool,
    pub grade_too_low: bool,
}

impl CiVerdict {
    /// Whether every check passed.
    pub fn pass(&self) -> (r: bool)
        ensures
            r == (!self.token_budget_exceeded && !self.ratio_too_high && !self.grade_too_low),
    {
        !self.token_budget_exceeded && !self.ratio_too_high && !self.grade_too_low
    }
}

/// The project ratio of `tokens` over `lines`.
pub open spec fn project_ratio(tokens: usize, lines: usize) -> Ratio {
    if lines > 0 {
        Ratio { num: tokens as u128, den: lines as u128 }
    } else {
        Ratio { num: 0, den: 1 }
    }
}

/// The CI gate on a project's totals: the token budget is exceeded when the tokens pass
/// `max_tokens`; the ratio (zero for no lines) is too high when it passes `max_tl_milli`
/// thousandths of a token per line; the grade is too low when its rank is below that of
/// `min_grade`.
pub fn ci_verdict(
    total_tokens: usize,
    total_lines: usize,
    max_tokens: Option<usize>,
    max_tl_milli: Option<i64>,
    min_grade: Option<&str>,
) -> (r: CiVerdict)
    ensures
        r.token_budget_exceeded == (match max_tokens {
            Some(m) => total_tokens > m,
            None => false,
        }),
        r.ratio_too_high == (match max_tl_milli {
            Some(m) => if total_lines > 0 {
                total_tokens * 1000 > m * total_lines
            } else {
                m < 0
            },
            None => false,
        }),
        r.grade_too_low == (match min_grade {
            Some(g) => grade_rank_spec(letter_spec(grade_spec(project_ratio(total_tokens, total_lines))))
                < grade_rank_spec(g@),
            None => false,
        }),
{
    let token_budget_exceeded = match max_tokens {
        Some(m) => total_tokens > m,
        None => false,
    };
    let ratio_too_high = match max_tl_milli {
        Some(m) => {
            if m < 0 {
                if total_lines > 0 {
                    assert(m * total_lines < 0) by (nonlinear_arith)
                        requires
                            m < 0,
                            total_lines > 0,
                    ;
                }
                true
            } else if total_lines == 0 {
                false
            } else {
                let lhs: u128 = total_tokens as u128 * 1000;
                let a = m as u128;
                let b = total_lines as u128;
                assert(a * b <= 0xffff_ffff_ffff_ffffu128 * 0xffff_ffff_ffff_ffffu128) by (nonlinear_arith)
                    requires
                        a <= 0xffff_ffff_ffff_ffffu128,
                        b <= 0xffff_ffff_ffff_ffffu128,
                ;
                let rhs: u128 = a * b;
                lhs > rhs
            }
        },
        None => false,
    };
    let grade_too_low = match min_grade {
        Some(g) => {
            let (_, _, letter) = efficiency_grade(ratio(total_tokens, total_lines));
            grade_rank(letter) < grade_rank(g)
        },
        None => false,
    };
    CiVerdict { token_budget_exceeded, ratio_too_high, grade_too_low }
}

} // verus!
