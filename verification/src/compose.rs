//! Compose operations compile into ordinary supervised commands.
use vstd::prelude::*;
use crate::model::Compose;
use crate::text::views;

verus! {

/// The arguments shared by every Compose invocation for `compose`.
pub open spec fn base_arguments(compose: Compose) -> Seq<Seq<char>> {
    seq![
        "docker"@,
        "compose"@,
        "--project-name"@,
        compose.project@,
        "--file"@,
        compose.file@,
    ]
}

/// The command that starts the service and waits for it to exit.
pub open spec fn up_arguments(compose: Compose) -> Seq<Seq<char>> {
    base_arguments(compose) + seq![
        "up"@,
        if compose.build { "--build"@ } else { "--no-build"@ },
        "--abort-on-container-exit"@,
        "--exit-code-from"@,
        compose.service@,
        compose.service@,
    ]
}

/// The command that tears the project down again.
pub open spec fn down_arguments(compose: Compose) -> Seq<Seq<char>> {
    base_arguments(compose).push("down"@)
}

fn text(s: &str) -> (r: String)
    ensures
        r@ == s@,
{
    String::from_str(s)
}

/// The `up` and `down` commands for a Compose service.
pub fn commands(compose: &Compose) -> (r: (Vec<String>, Vec<String>))
    ensures
        views(r.0@) == up_arguments(*compose),
        views(r.1@) == down_arguments(*compose),
{
    let mut base: Vec<String> = Vec::new();
    base.push(text("docker"));
    base.push(text("compose"));
    base.push(text("--project-name"));
    base.push(compose.project.clone());
    base.push(text("--file"));
    base.push(compose.file.clone());
    let mut up = base.clone();
    let mut down = base;
    proof {
        assert(forall|i: int| 0 <= i < up@.len() ==> up@[i] == down@[i]);
    }
    up.push(text("up"));
    up.push(if compose.build { text("--build") } else { text("--no-build") });
    up.push(text("--abort-on-container-exit"));
    up.push(text("--exit-code-from"));
    up.push(compose.service.clone());
    up.push(compose.service.clone());
    down.push(text("down"));
    assert(views(up@) =~= up_arguments(*compose));
    assert(views(down@) =~= down_arguments(*compose));
    (up, down)
}

/// The `up` command rebuilds images only when the declaration asks for it:
/// right after `up` it passes `--build` when `build` is set and `--no-build`
/// otherwise, and never both.
pub proof fn law_up_builds_only_when_asked(compose: Compose)
    ensures
        up_arguments(compose).len() == 12,
        up_arguments(compose)[6] == "up"@,
        compose.build ==> up_arguments(compose)[7] == "--build"@,
        !compose.build ==> up_arguments(compose)[7] == "--no-build"@,
        "--build"@ != "--no-build"@,
{
    reveal_strlit("--build");
    reveal_strlit("--no-build");
    assert("--build"@.len() != "--no-build"@.len());
}

} // verus!
