//! The engine-side compute of the protocol facade: listing skills as text,
//! looking a skill up by name, and the fixed guidance and error messages.
//!
//! Every message is specified character by character, so the facade only
//! ships bytes it never has to inspect.

use vstd::prelude::*;
use crate::consolidate::has_skill_name;
use crate::consolidate::first_skill_index;
use crate::discover::{Skill, SkillView};

verus! {

/// The decimal digit character for `d`.
pub open spec fn digit_char(d: nat) -> char {
    if d == 0 {
        '0'
    } else if d == 1 {
        '1'
    } else if d == 2 {
        '2'
    } else if d == 3 {
        '3'
    } else if d == 4 {
        '4'
    } else if d == 5 {
        '5'
    } else if d == 6 {
        '6'
    } else if d == 7 {
        '7'
    } else if d == 8 {
        '8'
    } else {
        '9'
    }
}

/// The decimal rendering of `n`, most significant digit first, no leading
/// zero except for zero itself.
pub open spec fn dec_digits(n: nat) -> Seq<char>
    decreases n,
{
    if n < 10 {
        seq![digit_char(n)]
    } else {
        dec_digits(n / 10).push(digit_char(n % 10))
    }
}

fn digit_string(d: usize) -> (r: String)
    requires
        d < 10,
    ensures
        r@ == seq![digit_char(d as nat)],
{
    if d == 0 {
        let r = String::from_str("0");
        proof {
            reveal_strlit("0");
            assert(r@ =~= seq![digit_char(d as nat)]);
        }
        r
    } else if d == 1 {
        let r = String::from_str("1");
        proof {
            reveal_strlit("1");
            assert(r@ =~= seq![digit_char(d as nat)]);
        }
        r
    } else if d == 2 {
        let r = String::from_str("2");
        proof {
            reveal_strlit("2");
            assert(r@ =~= seq![digit_char(d as nat)]);
        }
        r
    } else if d == 3 {
        let r = String::from_str("3");
        proof {
            reveal_strlit("3");
            assert(r@ =~= seq![digit_char(d as nat)]);
        }
        r
    } else if d == 4 {
        let r = String::from_str("4");
        proof {
            reveal_strlit("4");
            assert(r@ =~= seq![digit_char(d as nat)]);
        }
        r
    } else if d == 5 {
        let r = String::from_str("5");
        proof {
            reveal_strlit("5");
            assert(r@ =~= seq![digit_char(d as nat)]);
        }
        r
    } else if d == 6 {
        let r = String::from_str("6");
        proof {
            reveal_strlit("6");
            assert(r@ =~= seq![digit_char(d as nat)]);
        }
        r
    } else if d == 7 {
        let r = String::from_str("7");
        proof {
            reveal_strlit("7");
            assert(r@ =~= seq![digit_char(d as nat)]);
        }
        r
    } else if d == 8 {
        let r = String::from_str("8");
        proof {
            reveal_strlit("8");
            assert(r@ =~= seq![digit_char(d as nat)]);
        }
        r
    } else {
        let r = String::from_str("9");
        proof {
            reveal_strlit("9");
            assert(r@ =~= seq![digit_char(d as nat)]);
        }
        r
    }
}

/// Renders `n` in decimal.
pub fn usize_to_string(n: usize) -> (s: String)
    ensures
        s@ == dec_digits(n as nat),
    decreases n,
{
    if n < 10 {
        digit_string(n)
    } else {
        let mut s = usize_to_string(n / 10);
        let d = digit_string(n % 10);
        s.append(d.as_str());
        proof {
            assert(s@ =~= dec_digits(n as nat));
        }
        s
    }
}

/// The line describing one skill in a listing.
pub open spec fn skill_line(s: SkillView) -> Seq<char> {
    "- "@ + s.name + " (source: "@ + s.source_name + ", path: "@ + s.path + ")"@
}

/// Renders one skill's listing line.
pub fn skill_line_exec(s: &Skill) -> (r: String)
    ensures
        r@ == skill_line(s@),
{
    let mut r = String::from_str("- ");
    r.append(s.name.as_str());
    r.append(" (source: ");
    r.append(s.source_name.as_str());
    r.append(", path: ");
    r.append(s.path.as_str());
    r.append(")");
    proof {
        assert(r@ =~= skill_line(s@));
    }
    r
}

/// The guidance message a listing returns when discovery found no skills.
pub open spec fn no_skills_text() -> Seq<char> {
    "No skills found. Run `skync init` to configure sources."@
}

/// The skill lines, one per skill in order, separated by newlines.
pub open spec fn skill_lines(skills: Seq<SkillView>) -> Seq<char>
    decreases skills.len(),
{
    if skills.len() == 0 {
        Seq::<char>::empty()
    } else if skills.len() == 1 {
        skill_line(skills[0])
    } else {
        skill_lines(skills.drop_last()) + seq!['\n'] + skill_line(skills.last())
    }
}

/// The whole listing: the guidance message for an empty result, otherwise a
/// count line followed by one line per skill.
pub open spec fn skills_report(skills: Seq<SkillView>) -> Seq<char> {
    if skills.len() == 0 {
        no_skills_text()
    } else {
        dec_digits(skills.len()) + " skill(s) found:\n"@ + skill_lines(skills)
    }
}

/// Renders the listing of discovered skills, exactly as
/// [`skills_report`] states it.
pub fn list_skills_text(skills: &Vec<Skill>) -> (r: String)
    ensures
        r@ == skills_report(skills.deep_view()),
{
    let n = skills.len();
    if n == 0 {
        let r = String::from_str("No skills found. Run `skync init` to configure sources.");
        return r;
    }
    let mut r = usize_to_string(n);
    r.append(" skill(s) found:\n");
    let ghost prefix = dec_digits(n as nat) + " skill(s) found:\n"@;
    proof {
        assert(r@ =~= prefix + skill_lines(skills.deep_view().take(0)));
    }
    let mut i: usize = 0;
    while i < n
        invariant
            n == skills.len(),
            1 <= n,
            0 <= i <= n,
            prefix == dec_digits(n as nat) + " skill(s) found:\n"@,
            r@ == prefix + skill_lines(skills.deep_view().take(i as int)),
        decreases n - i,
    {
        let ghost taken = skills.deep_view().take(i + 1);
        proof {
            assert(taken.drop_last() =~= skills.deep_view().take(i as int));
            assert(taken.last() == skills.deep_view()[i as int]);
        }
        if i > 0 {
            proof {
                reveal_strlit("\n");
            }
            r.append("\n");
        }
        let line = skill_line_exec(&skills[i]);
        r.append(line.as_str());
        proof {
            assert(r@ =~= prefix + skill_lines(taken));
        }
        i += 1;
    }
    proof {
        assert(skills.deep_view().take(n as int) =~= skills.deep_view());
    }
    r
}

/// The index of the first skill carrying `name`, in discovery order, if any
/// does.
pub fn find_skill(skills: &Vec<Skill>, name: &String) -> (r: Option<usize>)
    ensures
        r matches Some(i) ==> i < skills.len() && i == first_skill_index(
            skills.deep_view(),
            name@,
        ) && skills.deep_view()[i as int].name == name@,
        r is None ==> !has_skill_name(skills.deep_view(), name@),
{
    let n = skills.len();
    let mut i: usize = 0;
    while i < n
        invariant
            n == skills.len(),
            0 <= i <= n,
            forall|j: int| 0 <= j < i ==> skills.deep_view()[j].name != name@,
        decreases n - i,
    {
        if skills[i].name == *name {
            proof {
                assert(skills.deep_view()[i as int].name == name@);
                lemma_first_index_found(skills.deep_view(), name@, i as int);
            }
            return Some(i);
        }
        i += 1;
    }
    proof {
        if has_skill_name(skills.deep_view(), name@) {
            let j = choose|j: int|
                0 <= j < skills.deep_view().len() && skills.deep_view()[j].name == name@;
            assert(false);
        }
    }
    None
}

/// If `skills[i]` carries `n` and nothing before it does, `i` is the first
/// index carrying `n`.
proof fn lemma_first_index_found(skills: Seq<SkillView>, n: Seq<char>, i: int)
    requires
        0 <= i < skills.len(),
        skills[i].name == n,
        forall|j: int| 0 <= j < i ==> skills[j].name != n,
    ensures
        first_skill_index(skills, n) == i,
    decreases i,
{
    if i > 0 {
        assert(skills[0].name != n);
        assert(skills.drop_first()[i - 1].name == n);
        assert forall|j: int| 0 <= j < i - 1 implies skills.drop_first()[j].name != n by {
            assert(skills[j + 1].name != n);
        }
        lemma_first_index_found(skills.drop_first(), n, i - 1);
    }
}

/// The structured "not found" reply for a skill lookup miss.
pub open spec fn not_found_text(name: Seq<char>) -> Seq<char> {
    "Skill '"@ + name + "' not found. Use list_skills to see available skills."@
}

/// Renders the lookup-miss guidance for `name`.
pub fn not_found_message(name: &String) -> (r: String)
    ensures
        r@ == not_found_text(name@),
{
    let mut r = String::from_str("Skill '");
    r.append(name.as_str());
    r.append("' not found. Use list_skills to see available skills.");
    proof {
        assert(r@ =~= not_found_text(name@));
    }
    r
}

/// The error detail prefix for a failed discovery pass.
pub open spec fn discovery_failed_text(detail: Seq<char>) -> Seq<char> {
    "discovery failed: "@ + detail
}

/// Renders the discovery-failure error message carrying `detail`.
pub fn discovery_failed_message(detail: &String) -> (r: String)
    ensures
        r@ == discovery_failed_text(detail@),
{
    let mut r = String::from_str("discovery failed: ");
    r.append(detail.as_str());
    proof {
        assert(r@ =~= discovery_failed_text(detail@));
    }
    r
}

/// The outcome of a skill lookup: the first matching skill, in discovery
/// order, or the guidance message for a miss. A miss is a normal reply, not
/// an infrastructure failure.
pub enum SkillLookup {
    Found(Skill),
    NotFound(String),
}

/// Looks up `name` among the discovered skills: the first skill carrying
/// the name, case-sensitively, or the lookup-miss guidance.
pub fn lookup_skill(skills: &Vec<Skill>, name: &String) -> (r: SkillLookup)
    ensures
        r matches SkillLookup::Found(sk) ==> has_skill_name(skills.deep_view(), name@) && sk@
            == skills.deep_view()[first_skill_index(skills.deep_view(), name@)],
        r matches SkillLookup::NotFound(msg) ==> !has_skill_name(skills.deep_view(), name@)
            && msg@ == not_found_text(name@),
{
    match find_skill(skills, name) {
        Some(i) => {
            let s = &skills[i];
            let sk = Skill {
                name: s.name.clone(),
                source_name: s.source_name.clone(),
                path: s.path.clone(),
            };
            proof {
                assert(sk@ == skills.deep_view()[i as int]);
                assert(0 <= (i as int) < skills.deep_view().len() && skills.deep_view()[
                    i as int
                ].name == name@);
            }
            SkillLookup::Found(sk)
        },
        None => SkillLookup::NotFound(not_found_message(name)),
    }
}

} // verus!
