//! What the model is told before the conversation.
use crate::skills::{skill_views, Skill, SkillView};
use crate::text::{self, join, texts};
use vstd::prelude::*;
use vstd::string::StringExecFns;

verus! {

/// The line that tells the model of a skill.
pub open spec fn skill_line(skill: SkillView) -> Seq<char> {
    skill.path + ": "@ + skill.description
}

/// The lines that tell the model of the skills.
pub open spec fn skill_lines(skills: Seq<SkillView>) -> Seq<Seq<char>> {
    skills.map_values(|s: SkillView| skill_line(s))
}

/// What the model is told: what it is, the instructions of the project from the
/// outermost folder to the innermost, the skills, and where it is.
pub open spec fn instructions(cwd: Seq<char>, project: Seq<Seq<char>>, skills: Seq<SkillView>) -> Seq<char> {
    "You are coding agent"@ + (if project.len() > 0 {
        "\n\nProject Instructions:\n"@ + join(project, "\n\n"@)
    } else {
        seq![]
    }) + (if skills.len() > 0 {
        "\n\nSkills:\n"@ + join(skill_lines(skills), "\n"@)
    } else {
        seq![]
    }) + "\n\ncwd:"@ + cwd
}

/// The texts, joined by `sep`.
fn join_texts(list: &Vec<String>, sep: &str) -> (r: String)
    ensures
        r@ == join(texts(list@), sep@),
{
    let mut parts: Vec<Vec<char>> = Vec::new();
    let mut i: usize = 0;
    while i < list.len()
        invariant
            i <= list@.len(),
            parts@.len() == i,
            forall|k: int| 0 <= k < i ==> (#[trigger] parts@[k])@ == list@[k]@,
        decreases list@.len() - i,
    {
        parts.push(text::chars(&list[i]));
        i += 1;
    }
    assert(text::views(parts@) =~= texts(list@));
    text::string(&text::joined(&parts, &text::chars(sep)))
}

/// What the model is told. `project` holds the instructions that were found,
/// from the outermost folder to the innermost.
pub fn build(cwd: &str, project: &Vec<String>, skills: &Vec<Skill>) -> (r: String)
    ensures
        r@ == instructions(cwd@, texts(project@), skill_views(skills@)),
{
    let mut out = "You are coding agent".to_owned();
    if project.len() > 0 {
        out.append("\n\nProject Instructions:\n");
        out.append(&join_texts(project, "\n\n"));
    }
    let mut entries: Vec<String> = Vec::new();
    let mut i: usize = 0;
    while i < skills.len()
        invariant
            i <= skills@.len(),
            entries@.len() == i,
            forall|k: int| 0 <= k < i ==> (#[trigger] entries@[k])@ == skill_line(skills@[k]@),
        decreases skills@.len() - i,
    {
        let mut line = text::cat(&skills[i].path, ": ");
        line.append(&skills[i].description);
        entries.push(line);
        i += 1;
    }
    assert(texts(entries@) =~= skill_lines(skill_views(skills@)));
    if entries.len() > 0 {
        out.append("\n\nSkills:\n");
        out.append(&join_texts(&entries, "\n"));
    }
    out.append("\n\ncwd:");
    out.append(cwd);
    assert(out@ =~= instructions(cwd@, texts(project@), skill_views(skills@)));
    out
}

/// What the model is told first and last, and that nothing stands between where
/// the project has no instructions and no skills.
pub proof fn law_instructions_say_where_the_model_is(cwd: Seq<char>, project: Seq<Seq<char>>, skills: Seq<SkillView>)
    ensures
        "You are coding agent"@.is_prefix_of(instructions(cwd, project, skills)),
        exists|head: Seq<char>| instructions(cwd, project, skills) == #[trigger] (head + ("\n\ncwd:"@ + cwd)),
        project.len() == 0 && skills.len() == 0 ==> instructions(cwd, project, skills) == "You are coding agent"@
            + "\n\ncwd:"@ + cwd,
{
    let told = if project.len() > 0 {
        "\n\nProject Instructions:\n"@ + join(project, "\n\n"@)
    } else {
        seq![]
    };
    let known = if skills.len() > 0 {
        "\n\nSkills:\n"@ + join(skill_lines(skills), "\n"@)
    } else {
        seq![]
    };
    let head = "You are coding agent"@ + told + known;
    let all = instructions(cwd, project, skills);
    assert(all =~= head + ("\n\ncwd:"@ + cwd));
    assert(all.take("You are coding agent"@.len() as int) =~= "You are coding agent"@);
    if project.len() == 0 && skills.len() == 0 {
        assert(all =~= "You are coding agent"@ + "\n\ncwd:"@ + cwd);
    }
}

/// Every text of the project and every skill is told, in their order: one more
/// text comes behind those before it, and one more skill on a line of its own
/// with its path and what it is for.
pub proof fn law_instructions_leave_nothing_out(
    cwd: Seq<char>,
    project: Seq<Seq<char>>,
    more: Seq<char>,
    skills: Seq<SkillView>,
    skill: SkillView,
)
    requires
        project.len() > 0,
        skills.len() > 0,
    ensures
        ({
            let before = "You are coding agent\n\nProject Instructions:\n"@;
            let texts = join(project, "\n\n"@);
            let lines = join(skills.map_values(|s: SkillView| s.path + ": "@ + s.description), "\n"@);
            &&& instructions(cwd, project, skills) == before + texts + "\n\nSkills:\n"@ + lines + "\n\ncwd:"@ + cwd
            &&& instructions(cwd, project.push(more), skills) == before + texts + "\n\n"@ + more + "\n\nSkills:\n"@
                + lines + "\n\ncwd:"@ + cwd
            &&& instructions(cwd, project, skills.push(skill)) == before + texts + "\n\nSkills:\n"@ + lines + "\n"@
                + skill.path + ": "@ + skill.description + "\n\ncwd:"@ + cwd
        }),
{
    reveal_strlit("You are coding agent");
    reveal_strlit("\n\nProject Instructions:\n");
    reveal_strlit("You are coding agent\n\nProject Instructions:\n");
    let before = "You are coding agent\n\nProject Instructions:\n"@;
    assert(before =~= "You are coding agent"@ + "\n\nProject Instructions:\n"@);
    let texts = join(project, "\n\n"@);
    let known = skills.map_values(|s: SkillView| s.path + ": "@ + s.description);
    assert(known =~= skill_lines(skills));
    let lines = join(known, "\n"@);
    assert(instructions(cwd, project, skills) =~= before + texts + "\n\nSkills:\n"@ + lines + "\n\ncwd:"@ + cwd);
    let longer = project.push(more);
    assert(longer.drop_last() =~= project);
    assert(join(longer, "\n\n"@) == texts + "\n\n"@ + more);
    assert(instructions(cwd, longer, skills) =~= before + texts + "\n\n"@ + more + "\n\nSkills:\n"@ + lines
        + "\n\ncwd:"@ + cwd);
    let wider = skills.push(skill);
    let all = skill_lines(wider);
    assert(all.drop_last() =~= skill_lines(skills));
    assert(all.last() == skill.path + ": "@ + skill.description);
    assert(join(all, "\n"@) == lines + "\n"@ + (skill.path + ": "@ + skill.description));
    assert(instructions(cwd, project, wider) =~= before + texts + "\n\nSkills:\n"@ + lines + "\n"@ + skill.path + ": "@
        + skill.description + "\n\ncwd:"@ + cwd);
}

/// Where the project gives none, or there are no skills, nothing is said of
/// them.
pub proof fn law_instructions_say_nothing_of_what_is_missing(
    cwd: Seq<char>,
    project: Seq<Seq<char>>,
    skills: Seq<SkillView>,
)
    requires
        project.len() > 0,
        skills.len() > 0,
    ensures
        instructions(cwd, project, seq![]) == "You are coding agent"@ + "\n\nProject Instructions:\n"@ + join(
            project,
            "\n\n"@,
        ) + "\n\ncwd:"@ + cwd,
        instructions(cwd, seq![], skills) == "You are coding agent"@ + "\n\nSkills:\n"@ + join(
            skills.map_values(|s: SkillView| s.path + ": "@ + s.description),
            "\n"@,
        ) + "\n\ncwd:"@ + cwd,
{
    let lines = skills.map_values(|s: SkillView| s.path + ": "@ + s.description);
    assert(lines =~= skill_lines(skills));
    assert(instructions(cwd, project, seq![]) =~= "You are coding agent"@ + "\n\nProject Instructions:\n"@ + join(
        project,
        "\n\n"@,
    ) + "\n\ncwd:"@ + cwd);
    assert(instructions(cwd, seq![], skills) =~= "You are coding agent"@ + "\n\nSkills:\n"@ + join(lines, "\n"@)
        + "\n\ncwd:"@ + cwd);
}

} // verus!
