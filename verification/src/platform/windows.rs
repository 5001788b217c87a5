//! Windows: no lists are read yet; an item is started through the shell.

use crate::config::{clone_strings, texts, LaunchItem};
use crate::platform::{LaunchPlan, PlanView};
use vstd::prelude::*;

verus! {

/// What the launcher knows of Windows.
#[derive(Debug)]
pub struct WindowsDataSource;

impl WindowsDataSource {
    /// The data source of Windows.
    pub fn new() -> (source: WindowsDataSource)
        ensures
            source == WindowsDataSource,
    {
        WindowsDataSource
    }

    /// The command that starts `item`: `cmd /C start ""`, the path of the
    /// item and its arguments.
    pub fn launch_plan(&self, item: &LaunchItem) -> (plan: LaunchPlan)
        ensures
            plan@ == (PlanView {
                program: "cmd"@,
                args: seq!["/C"@, "start"@, ""@, item@.path] + item@.args,
            }),
    {
        let mut args: Vec<String> = Vec::new();
        args.push("/C".to_owned());
        args.push("start".to_owned());
        args.push("".to_owned());
        args.push(item.path.clone());
        let mut rest = clone_strings(&item.args);
        let ghost head = texts(args@);
        let ghost tail = texts(rest@);
        args.append(&mut rest);
        proof {
            assert(head =~= seq!["/C"@, "start"@, ""@, item@.path]);
            assert(texts(args@) =~= head + tail);
        }
        LaunchPlan { program: "cmd".to_owned(), args }
    }
}

} // verus!
