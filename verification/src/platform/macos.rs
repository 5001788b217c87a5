//! macOS: applications are bundles under the application directories, and
//! items are started with `open`.

use crate::config::{clone_strings, item_views, texts, ItemType, ItemView, LaunchItem};
use crate::platform::history::{
    count_views, frequent, key_views, pick_frequent, CommandCount, CountView,
};
use crate::platform::paths::{base_stem, base_stem_of, file_stem, join_path, joined_path};
use crate::platform::{program_item, LaunchPlan, PlanView};
use crate::text::{
    chars_of, ends_with, find_chars, has_suffix, lowercase_of, occurs, part_views, string_of,
    text_of, to_lowercase,
};
use vstd::prelude::*;

verus! {

/// What the launcher knows of macOS.
#[derive(Debug)]
pub struct MacOSDataSource {
    /// The home directory of the user.
    pub home_dir: String,
}

/// The home directory that is taken: `home`, or `/Users` where none is known.
pub open spec fn home_or_default(home: Option<Seq<char>>) -> Seq<char> {
    match home {
        Some(h) => h,
        None => "/Users"@,
    }
}

/// The command that starts `item` on macOS. A document is opened with
/// `open`, an application bundle with `open -a`; any other program and a
/// shortcut are run as they are, with the arguments of the item.
pub open spec fn mac_plan(item: ItemView) -> PlanView {
    if item.item_type == ItemType::Document {
        PlanView { program: "open"@, args: seq![item.path] }
    } else if item.item_type == ItemType::Program && ends_with(item.path, ".app"@) {
        PlanView { program: "open"@, args: seq!["-a"@, item.path] + item.args }
    } else {
        PlanView { program: item.path, args: item.args }
    }
}

/// The application at `path` under the name of its bundle, unless a name
/// for display is known: `display` before `bundle`. A path that names no
/// file gives nothing.
pub open spec fn app_of(
    path: Seq<char>,
    display: Option<Seq<char>>,
    bundle: Option<Seq<char>>,
) -> Option<ItemView> {
    match base_stem(path) {
        Some(stem) => Some(
            ItemView {
                name: match display {
                    Some(d) => d,
                    None => match bundle {
                        Some(b) => b,
                        None => stem,
                    },
                },
                path,
                icon: None,
                args: Seq::empty(),
                item_type: ItemType::Program,
            },
        ),
        None => None,
    }
}

/// `line` of the answer of the file search names a file that is offered: it
/// is not empty and does not lie in a library directory.
pub open spec fn is_offered_path(line: Seq<char>) -> bool {
    line.len() > 0 && !occurs(line, "/Library/"@)
}

/// The command by which an application is known in the history of the
/// shell: the name of its bundle, in lower case.
pub open spec fn bundle_key(path: Seq<char>) -> Option<Seq<char>> {
    match base_stem(path) {
        Some(stem) => Some(lowercase_of(stem)),
        None => None,
    }
}

/// The keys of `apps`, in order.
pub open spec fn bundle_keys(apps: Seq<ItemView>) -> Seq<Option<Seq<char>>> {
    apps.map_values(|a: ItemView| bundle_key(a.path))
}

/// The commands of `counts` in lower case, in order.
pub open spec fn lowered_commands(counts: Seq<CountView>) -> Seq<Seq<char>> {
    counts.map_values(|c: CountView| lowercase_of(c.command))
}

impl MacOSDataSource {
    /// The data source of a user whose home directory is `home`.
    pub fn new(home: Option<String>) -> (source: MacOSDataSource)
        ensures
            source.home_dir@ == home_or_default(text_of(home)),
    {
        MacOSDataSource {
            home_dir: match home {
                Some(h) => h,
                None => "/Users".to_owned(),
            },
        }
    }

    /// The directories in which application bundles are looked for, in the
    /// order in which they are read.
    pub fn application_dirs(&self) -> (dirs: Vec<String>)
        ensures
            texts(dirs@) == seq![
                "/Applications"@,
                "/System/Applications"@,
                joined_path(self.home_dir@, "Applications"@),
            ],
    {
        let mut dirs: Vec<String> = Vec::new();
        dirs.push("/Applications".to_owned());
        dirs.push("/System/Applications".to_owned());
        dirs.push(join_path(self.home_dir.as_str(), "Applications"));
        proof {
            assert(texts(dirs@) =~= seq![
                "/Applications"@,
                "/System/Applications"@,
                joined_path(self.home_dir@, "Applications"@),
            ]);
        }
        dirs
    }

    /// The file in which zsh keeps its history.
    pub fn zsh_history_path(&self) -> (path: String)
        ensures
            path@ == joined_path(self.home_dir@, ".zsh_history"@),
    {
        join_path(self.home_dir.as_str(), ".zsh_history")
    }

    /// The file in which bash keeps its history.
    pub fn bash_history_path(&self) -> (path: String)
        ensures
            path@ == joined_path(self.home_dir@, ".bash_history"@),
    {
        join_path(self.home_dir.as_str(), ".bash_history")
    }

    /// The application bundle at `app_path` as a launch item: see `app_of`.
    /// `display` and `bundle` are the names that the bundle gives for display
    /// and for itself, where it gives them.
    pub fn parse_app_bundle(
        &self,
        app_path: &str,
        display: Option<String>,
        bundle: Option<String>,
    ) -> (item: Option<LaunchItem>)
        ensures
            item is Some <==> app_of(app_path@, text_of(display), text_of(bundle)) is Some,
            item matches Some(i) ==> app_of(app_path@, text_of(display), text_of(bundle)) == Some(
                i@,
            ),
    {
        match file_stem(app_path) {
            Some(stem) => {
                let name = match display {
                    Some(d) => d,
                    None => match bundle {
                        Some(b) => b,
                        None => stem,
                    },
                };
                Some(program_item(name, app_path.to_owned(), None))
            },
            None => None,
        }
    }

    /// Whether a line of the answer of the file search names a file that is
    /// offered: see `is_offered_path`.
    pub fn offers_path(&self, line: &str) -> (r: bool)
        ensures
            r == is_offered_path(line@),
    {
        let chars = chars_of(line);
        let library = chars_of("/Library/");
        chars.len() > 0 && find_chars(&chars, &library).is_none()
    }

    /// The programs that are used most, at most `limit`: the commands of the
    /// history in the order of their counts, the highest first, each giving
    /// the application whose bundle has its name, case aside.
    pub fn frequent_programs_from(
        &self,
        counts: &Vec<CommandCount>,
        apps: &Vec<LaunchItem>,
        limit: usize,
    ) -> (out: Vec<LaunchItem>)
        ensures
            item_views(out@) == frequent(
                item_views(apps@),
                bundle_keys(item_views(apps@)),
                count_views(counts@),
                lowered_commands(count_views(counts@)),
                limit as nat,
            ),
            out@.len() <= limit,
    {
        let mut keys: Vec<Option<Vec<char>>> = Vec::new();
        let mut i: usize = 0;
        while i < apps.len()
            invariant
                i <= apps.len(),
                keys@.len() == i,
                key_views(keys@) == bundle_keys(item_views(apps@)).take(i as int),
            decreases apps.len() - i,
        {
            let chars = chars_of(apps[i].path.as_str());
            let key = match base_stem_of(&chars) {
                Some(stem) => {
                    let stem = string_of(&stem);
                    Some(chars_of(to_lowercase(stem.as_str()).as_str()))
                },
                None => None,
            };
            keys.push(key);
            proof {
                let t = bundle_keys(item_views(apps@));
                assert(t[i as int] == bundle_key(apps@[i as int]@.path));
                assert(key_views(keys@) =~= t.take(i as int).push(t[i as int]));
                assert(t.take(i + 1) =~= t.take(i as int).push(t[i as int]));
            }
            i += 1;
        }
        let mut commands: Vec<Vec<char>> = Vec::new();
        let mut k: usize = 0;
        while k < counts.len()
            invariant
                k <= counts.len(),
                commands@.len() == k,
                part_views(commands@) == lowered_commands(count_views(counts@)).take(k as int),
            decreases counts.len() - k,
        {
            commands.push(chars_of(to_lowercase(counts[k].command.as_str()).as_str()));
            proof {
                let t = lowered_commands(count_views(counts@));
                assert(part_views(commands@) =~= t.take(k as int).push(t[k as int]));
                assert(t.take(k + 1) =~= t.take(k as int).push(t[k as int]));
            }
            k += 1;
        }
        proof {
            let t = bundle_keys(item_views(apps@));
            assert(t.take(apps.len() as int) == t);
            let c = lowered_commands(count_views(counts@));
            assert(c.take(counts.len() as int) == c);
        }
        pick_frequent(apps, &keys, counts, &commands, limit)
    }

    /// The command that starts `item`: see `mac_plan`.
    pub fn launch_plan(&self, item: &LaunchItem) -> (plan: LaunchPlan)
        ensures
            plan@ == mac_plan(item@),
    {
        match item.item_type {
            ItemType::Document => {
                let mut args: Vec<String> = Vec::new();
                args.push(item.path.clone());
                proof {
                    assert(texts(args@) =~= seq![item@.path]);
                }
                LaunchPlan { program: "open".to_owned(), args }
            },
            ItemType::Program => {
                let chars = chars_of(item.path.as_str());
                let suffix = chars_of(".app");
                if has_suffix(&chars, &suffix) {
                    let mut args: Vec<String> = Vec::new();
                    args.push("-a".to_owned());
                    args.push(item.path.clone());
                    let mut rest = clone_strings(&item.args);
                    let ghost head = texts(args@);
                    let ghost tail = texts(rest@);
                    args.append(&mut rest);
                    proof {
                        assert(head =~= seq!["-a"@, item@.path]);
                        assert(texts(args@) =~= head + tail);
                    }
                    LaunchPlan { program: "open".to_owned(), args }
                } else {
                    LaunchPlan { program: item.path.clone(), args: clone_strings(&item.args) }
                }
            },
            ItemType::Shortcut => {
                LaunchPlan { program: item.path.clone(), args: clone_strings(&item.args) }
            },
        }
    }
}

} // verus!
