//! Filename-style glob matching over byte strings: `*` matches any run of
//! bytes, `?` exactly one byte, `[set]` one byte out of a bracketed class
//! (ranges `a-z` allowed, a leading `!` or `^` negating), and every other
//! byte matches itself.  An unterminated `[` matches a literal `[`.

use vstd::prelude::*;

verus! {

/// ASCII `*`.
pub const GLOB_STAR: u8 = 42;

/// ASCII `?`.
pub const GLOB_ANY: u8 = 63;

/// ASCII `[`.
pub const GLOB_SET: u8 = 91;

/// ASCII `]`.
pub const SET_CLOSE: u8 = 93;

/// ASCII `!`.
pub const SET_BANG: u8 = 33;

/// ASCII `^`.
pub const SET_CARET: u8 = 94;

/// ASCII `-`.
pub const SET_DASH: u8 = 45;

/// The byte is one of the three glob metacharacters.
pub open spec fn is_glob_char(c: u8) -> bool {
    c == GLOB_STAR || c == GLOB_ANY || c == GLOB_SET
}

/// Tells whether the byte is one of the three glob metacharacters.
pub fn glob_char(c: u8) -> (r: bool)
    ensures
        r == is_glob_char(c),
{
    c == GLOB_STAR || c == GLOB_ANY || c == GLOB_SET
}

/// The index of the first `]` at or after `j`, or `p.len()` when none
/// follows.
pub open spec fn close_pos_from(p: Seq<u8>, j: int) -> int
    decreases p.len() - j,
{
    if j < 0 || j >= p.len() {
        p.len() as int
    } else if p[j] == SET_CLOSE {
        j
    } else {
        close_pos_from(p, j + 1)
    }
}

/// A pattern starting with `[` negates its class with `!` or `^`.
pub open spec fn class_negated(p: Seq<u8>) -> bool {
    p.len() > 1 && (p[1] == SET_BANG || p[1] == SET_CARET)
}

/// Where the class members start in a pattern whose first byte is `[`: a
/// negation mark, when present, is not a member.
pub open spec fn class_start(p: Seq<u8>) -> int {
    if class_negated(p) {
        2
    } else {
        1
    }
}

/// The index of the `]` closing the class, or `p.len()` when the class is
/// unterminated.  A `]` standing first among the members is a literal
/// member, so the search starts one past the first member position.
pub open spec fn class_close(p: Seq<u8>) -> int {
    close_pos_from(p, class_start(p) + 1)
}

/// The member bytes of the class: everything between the opening mark (and
/// negation, if any) and the closing `]`.
pub open spec fn class_members(p: Seq<u8>) -> Seq<u8> {
    p.subrange(class_start(p), class_close(p))
}

/// Whether `ch` is named by the member bytes `m`: a triple `a-z` names the
/// inclusive range, any other byte names itself (so a trailing or leading
/// `-` is literal).
pub open spec fn class_contains(m: Seq<u8>, ch: u8) -> bool
    decreases m.len(),
{
    if m.len() == 0 {
        false
    } else if m.len() >= 3 && m[1] == SET_DASH {
        (m[0] <= ch && ch <= m[2]) || class_contains(m.skip(3), ch)
    } else {
        m[0] == ch || class_contains(m.skip(1), ch)
    }
}

/// Glob matching of the whole pattern `p` against the whole text `t`.
pub open spec fn glob_matches(p: Seq<u8>, t: Seq<u8>) -> bool
    decreases p.len(), t.len(),
{
    if p.len() == 0 {
        t.len() == 0
    } else if p[0] == GLOB_STAR {
        glob_matches(p.skip(1), t) || (t.len() > 0 && glob_matches(p, t.skip(1)))
    } else if p[0] == GLOB_ANY {
        t.len() > 0 && glob_matches(p.skip(1), t.skip(1))
    } else if p[0] == GLOB_SET && 1 <= class_close(p) < p.len() {
        t.len() > 0 && (class_contains(class_members(p), t[0]) != class_negated(p))
            && glob_matches(p.skip(class_close(p) + 1), t.skip(1))
    } else {
        t.len() > 0 && p[0] == t[0] && glob_matches(p.skip(1), t.skip(1))
    }
}

/// Whether `ch` is named by the class members stored at `p[lo..hi]`.
fn class_match(p: &Vec<u8>, lo: usize, hi: usize, ch: u8) -> (r: bool)
    requires
        lo <= hi <= p@.len(),
    ensures
        r == class_contains(p@.subrange(lo as int, hi as int), ch),
    decreases hi - lo,
{
    let m = hi - lo;
    if m == 0 {
        false
    } else if m >= 3 && p[lo + 1] == SET_DASH {
        proof {
            assert(p@.subrange(lo as int, hi as int).skip(3) =~= p@.subrange(lo + 3, hi as int));
        }
        if p[lo] <= ch && ch <= p[lo + 2] {
            true
        } else {
            class_match(p, lo + 3, hi, ch)
        }
    } else {
        proof {
            assert(p@.subrange(lo as int, hi as int).skip(1) =~= p@.subrange(lo + 1, hi as int));
        }
        if p[lo] == ch {
            true
        } else {
            class_match(p, lo + 1, hi, ch)
        }
    }
}

/// Glob-matches the pattern tail `p[pi..]` against the text tail `t[ti..]`.
pub fn fnmatch_at(p: &Vec<u8>, pi: usize, t: &Vec<u8>, ti: usize) -> (r: bool)
    requires
        pi <= p@.len(),
        ti <= t@.len(),
    ensures
        r == glob_matches(p@.skip(pi as int), t@.skip(ti as int)),
    decreases p@.len() - pi, t@.len() - ti,
{
    let ghost pp = p@.skip(pi as int);
    let ghost tt = t@.skip(ti as int);
    if pi == p.len() {
        return ti == t.len();
    }
    let c = p[pi];
    assert(c == pp[0]);
    if c == GLOB_STAR {
        proof {
            assert(p@.skip(pi + 1) =~= pp.skip(1));
        }
        if fnmatch_at(p, pi + 1, t, ti) {
            true
        } else if ti < t.len() {
            proof {
                assert(t@.skip(ti + 1) =~= tt.skip(1));
            }
            fnmatch_at(p, pi, t, ti + 1)
        } else {
            false
        }
    } else if c == GLOB_ANY {
        proof {
            assert(p@.skip(pi + 1) =~= pp.skip(1));
            if ti < t@.len() {
                assert(t@.skip(ti + 1) =~= tt.skip(1));
            }
        }
        ti < t.len() && fnmatch_at(p, pi + 1, t, ti + 1)
    } else if c == GLOB_SET {
        let negated = pi + 1 < p.len() && (p[pi + 1] == SET_BANG || p[pi + 1] == SET_CARET);
        assert(negated == class_negated(pp));
        let ms: usize = if negated {
            2
        } else {
            1
        };
        assert(ms == class_start(pp));
        let rem = p.len() - pi;
        let mut j: usize = if ms + 1 <= rem {
            pi + ms + 1
        } else {
            p.len()
        };
        proof {
            if ms + 1 > rem {
                assert(close_pos_from(pp, ms + 1) == pp.len());
                assert(close_pos_from(pp, j - pi) == pp.len());
            }
        }
        while j < p.len() && p[j] != SET_CLOSE
            invariant
                pi + ms + 1 <= j + 1,
                pi <= j <= p@.len(),
                pp == p@.skip(pi as int),
                close_pos_from(pp, class_start(pp) + 1) == close_pos_from(pp, j - pi),
            decreases p@.len() - j,
        {
            proof {
                assert(pp[j - pi] == p@[j as int]);
                assert(close_pos_from(pp, j - pi) == close_pos_from(pp, j - pi + 1));
            }
            j = j + 1;
        }
        if j == p.len() {
            // No closing bracket: the `[` matches itself literally.
            proof {
                assert(close_pos_from(pp, j - pi) == pp.len());
                assert(p@.skip(pi + 1) =~= pp.skip(1));
                if ti < t@.len() {
                    assert(t@.skip(ti + 1) =~= tt.skip(1));
                }
            }
            ti < t.len() && t[ti] == GLOB_SET && fnmatch_at(p, pi + 1, t, ti + 1)
        } else {
            proof {
                assert(pp[j - pi] == p@[j as int]);
                assert(close_pos_from(pp, j - pi) == j - pi);
                assert(class_close(pp) == j - pi);
                assert(class_members(pp) =~= p@.subrange(pi + ms, j as int));
            }
            if ti == t.len() {
                return false;
            }
            let hit = class_match(p, pi + ms, j, t[ti]);
            assert(hit == class_contains(class_members(pp), tt[0]));
            proof {
                assert(p@.skip(j + 1) =~= pp.skip((j - pi) + 1));
                assert(t@.skip(ti + 1) =~= tt.skip(1));
            }
            if hit != negated {
                fnmatch_at(p, j + 1, t, ti + 1)
            } else {
                false
            }
        }
    } else {
        proof {
            assert(p@.skip(pi + 1) =~= pp.skip(1));
            if ti < t@.len() {
                assert(t@.skip(ti + 1) =~= tt.skip(1));
            }
        }
        ti < t.len() && t[ti] == c && fnmatch_at(p, pi + 1, t, ti + 1)
    }
}

} // verus!
