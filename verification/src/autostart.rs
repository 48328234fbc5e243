//! The Windows scheduled task that starts the distro at logon: its name and
//! the PowerShell scripts and task XML made from templates.

use vstd::prelude::*;
use crate::patterns::{regex_replace_all, regex_valid, Pattern};
use crate::template::{placeholder, Template};
use crate::text::{extend_str, replace_spec, seq_to_string};

verus! {

/// The characters that a task name keeps from a user name.
pub open spec fn nonlatin_pattern() -> Seq<char> {
    "[^a-zA-Z0-9]"@
}

/// The name of the task for `user_name` and `distro_name`, every character
/// of the user name but ASCII letters and digits replaced by `-`.
pub open spec fn schedule_task_name(user_name: Seq<char>, distro_name: Seq<char>) -> Seq<char> {
    "StartWSL_"@ + distro_name + "_for_"@ + regex_replace_all(nonlatin_pattern(), user_name, "-"@)
}

/// The name of the scheduled task; `None` when the regex crate refuses the pattern.
pub fn get_schedule_task_name(user_name: &str, distro_name: &str) -> (r: Option<String>)
    ensures
        r is Some <==> regex_valid(nonlatin_pattern()),
        r matches Some(s) ==> s@ == schedule_task_name(user_name@, distro_name@),
{
    let nonlatin = match Pattern::new("[^a-zA-Z0-9]") {
        Some(p) => p,
        None => {
            return None;
        },
    };
    let user = nonlatin.replace_all(user_name, "-");
    let mut v: Vec<char> = Vec::new();
    extend_str(&mut v, "StartWSL_");
    extend_str(&mut v, distro_name);
    extend_str(&mut v, "_for_");
    extend_str(&mut v, user.as_str());
    assert(v@ =~= schedule_task_name(user_name@, distro_name@));
    Some(seq_to_string(&v))
}

/// `text` with `{{name}}` replaced by `val`.
pub open spec fn assigned(text: Seq<char>, name: Seq<char>, val: Seq<char>) -> Seq<char> {
    replace_spec(text, placeholder(name), val)
}

/// The PowerShell script that schedules the task, from its template.
pub fn generate_schedule_posh_command(template: &str, user_name: &str, task_file_path: &str, distro_name: &str) -> (r: Option<String>)
    ensures
        r is Some <==> regex_valid(nonlatin_pattern()),
        r matches Some(s) ==> s@ == assigned(
            assigned(assigned(template@, "USER_NAME"@, user_name@), "TASK_FILE_WINDOWS_PATH"@, task_file_path@),
            "TASK_NAME"@,
            schedule_task_name(user_name@, distro_name@),
        ),
{
    let task_name = match get_schedule_task_name(user_name, distro_name) {
        Some(n) => n,
        None => {
            return None;
        },
    };
    let mut sched_ps = Template::new(template.to_owned());
    sched_ps.assign("USER_NAME", user_name);
    sched_ps.assign("TASK_FILE_WINDOWS_PATH", task_file_path);
    sched_ps.assign("TASK_NAME", task_name.as_str());
    Some(sched_ps.render())
}

/// The PowerShell script that removes the task, from its template.
pub fn generate_unschedule_posh_command(template: &str, user_name: &str, distro_name: &str) -> (r: Option<String>)
    ensures
        r is Some <==> regex_valid(nonlatin_pattern()),
        r matches Some(s) ==> s@ == assigned(template@, "TASK_NAME"@, schedule_task_name(user_name@, distro_name@)),
{
    let task_name = match get_schedule_task_name(user_name, distro_name) {
        Some(n) => n,
        None => {
            return None;
        },
    };
    let mut sched_ps = Template::new(template.to_owned());
    sched_ps.assign("TASK_NAME", task_name.as_str());
    Some(sched_ps.render())
}

/// The XML definition of the task, from its template.
pub fn generate_task_xml(template: &str, user_name: &str, distro_name: &str) -> (r: String)
    ensures
        r@ == assigned(
            assigned(assigned(template@, "USER_NAME"@, user_name@), "DISTRO_NAME"@, distro_name@),
            "TASK_NAME"@,
            "StartDistrod_"@ + distro_name@,
        ),
{
    let mut name: Vec<char> = Vec::new();
    extend_str(&mut name, "StartDistrod_");
    extend_str(&mut name, distro_name);
    let name = seq_to_string(&name);
    let mut task_xml = Template::new(template.to_owned());
    task_xml.assign("USER_NAME", user_name).assign("DISTRO_NAME", distro_name).assign("TASK_NAME", name.as_str());
    task_xml.render()
}

} // verus!
