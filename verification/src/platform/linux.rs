//! Linux: recent files from the list that the desktop keeps, programs from
//! desktop entries, frequent programs from the history of the shell.

use crate::config::{clone_strings, item_views, texts, ItemType, ItemView, LaunchItem};
use crate::platform::desktop::{DesktopEntry, DesktopView};
use crate::platform::history::{
    count_views, frequent, key_views, pick_frequent, CommandCount, CountView,
};
use crate::platform::paths::{base_name, base_name_of, join_path, joined_path};
use crate::platform::{one_per_name, unique_by_name};
use crate::platform::{LaunchPlan, PlanView, SourceError};
use crate::text::{chars_of, part_views, split_words, string_of, words_of};
use vstd::prelude::*;
use vstd::utf8::{decode_utf8, valid_utf8};

verus! {

/// What the launcher knows of a Linux desktop.
#[derive(Debug)]
pub struct LinuxDataSource {
    /// The home directory of the user.
    pub home_dir: String,
}

/// The home directory that is taken: `home`, or `/home` where none is known.
pub open spec fn home_or_default(home: Option<Seq<char>>) -> Seq<char> {
    match home {
        Some(h) => h,
        None => "/home"@,
    }
}

impl LinuxDataSource {
    /// The data source of a user whose home directory is `home`.
    pub fn new(home: Option<String>) -> (source: LinuxDataSource)
        ensures
            source.home_dir@ == home_or_default(crate::text::text_of(home)),
    {
        LinuxDataSource {
            home_dir: match home {
                Some(h) => h,
                None => "/home".to_owned(),
            },
        }
    }

    /// The file in which the desktop keeps the list of recently used files.
    pub fn recently_used_path(&self) -> (path: String)
        ensures
            path@ == joined_path(self.home_dir@, ".local/share/recently-used.xbel"@),
    {
        join_path(self.home_dir.as_str(), ".local/share/recently-used.xbel")
    }

    /// The directories in which desktop entries are looked for, in the order
    /// in which they are read.
    pub fn desktop_dirs(&self) -> (dirs: Vec<String>)
        ensures
            texts(dirs@) == seq![
                "/usr/share/applications"@,
                "/usr/local/share/applications"@,
                joined_path(self.home_dir@, ".local/share/applications"@),
                "/var/lib/flatpak/exports/share/applications"@,
                joined_path(self.home_dir@, ".local/share/flatpak/exports/share/applications"@),
            ],
    {
        let mut dirs: Vec<String> = Vec::new();
        dirs.push("/usr/share/applications".to_owned());
        dirs.push("/usr/local/share/applications".to_owned());
        dirs.push(join_path(self.home_dir.as_str(), ".local/share/applications"));
        dirs.push("/var/lib/flatpak/exports/share/applications".to_owned());
        dirs.push(join_path(self.home_dir.as_str(), ".local/share/flatpak/exports/share/applications"));
        proof {
            assert(texts(dirs@) =~= seq![
                "/usr/share/applications"@,
                "/usr/local/share/applications"@,
                joined_path(self.home_dir@, ".local/share/applications"@),
                "/var/lib/flatpak/exports/share/applications"@,
                joined_path(self.home_dir@, ".local/share/flatpak/exports/share/applications"@),
            ]);
        }
        dirs
    }

    /// The file in which bash keeps its history.
    pub fn bash_history_path(&self) -> (path: String)
        ensures
            path@ == joined_path(self.home_dir@, ".bash_history"@),
    {
        join_path(self.home_dir.as_str(), ".bash_history")
    }

    /// The file in which zsh keeps its history.
    pub fn zsh_history_path(&self) -> (path: String)
        ensures
            path@ == joined_path(self.home_dir@, ".zsh_history"@),
    {
        join_path(self.home_dir.as_str(), ".zsh_history")
    }

    /// The command that starts `item`. A document is opened with `xdg-open`.
    /// Of a program or a shortcut the first word of the path is the command;
    /// it is given the arguments of the item, or the other words of the path
    /// where the item has no arguments. A path without a word gives an error.
    pub fn launch_plan(&self, item: &LaunchItem) -> (plan: Result<LaunchPlan, SourceError>)
        ensures
            plan is Ok <==> linux_plan(item@) is Some,
            plan matches Ok(p) ==> linux_plan(item@) == Some(p@),
            plan matches Err(e) ==> e is EmptyCommand,
    {
        match item.item_type {
            ItemType::Document => {
                let mut args: Vec<String> = Vec::new();
                args.push(item.path.clone());
                proof {
                    assert(texts(args@) =~= seq![item@.path]);
                }
                Ok(LaunchPlan { program: "xdg-open".to_owned(), args })
            },
            ItemType::Program | ItemType::Shortcut => {
                let chars = chars_of(item.path.as_str());
                let words = split_words(&chars);
                if words.len() == 0 {
                    return Err(SourceError::EmptyCommand);
                }
                let program = string_of(&words[0]);
                let args = if item.args.len() == 0 {
                    let mut rest: Vec<String> = Vec::new();
                    let mut i: usize = 1;
                    while i < words.len()
                        invariant
                            1 <= i <= words.len(),
                            texts(rest@) == part_views(words@).subrange(1, i as int),
                        decreases words.len() - i,
                    {
                        rest.push(string_of(&words[i]));
                        proof {
                            assert(texts(rest@) =~= part_views(words@).subrange(1, i as int).push(
                                words@[i as int]@,
                            ));
                            assert(part_views(words@).subrange(1, i + 1) =~= part_views(
                                words@,
                            ).subrange(1, i as int).push(words@[i as int]@));
                        }
                        i += 1;
                    }
                    proof {
                        assert(part_views(words@).subrange(1, words.len() as int) =~= words_of(
                            item@.path,
                        ).skip(1));
                    }
                    rest
                } else {
                    clone_strings(&item.args)
                };
                Ok(LaunchPlan { program, args })
            },
        }
    }
}

/// The command that starts `item` on Linux, and none where the path of a
/// program or shortcut holds no word.
pub open spec fn linux_plan(item: ItemView) -> Option<PlanView> {
    if item.item_type == ItemType::Document {
        Some(PlanView { program: "xdg-open"@, args: seq![item.path] })
    } else if words_of(item.path).len() == 0 {
        None
    } else {
        Some(
            PlanView {
                program: words_of(item.path)[0],
                args: if item.args.len() == 0 {
                    words_of(item.path).skip(1)
                } else {
                    item.args
                },
            },
        )
    }
}

/// Why a text could not be decoded.
#[derive(Debug, PartialEq, Eq)]
pub enum DecodeError {
    /// The decoded bytes are no UTF-8.
    InvalidUtf8,
}

/// The value of the hexadecimal digit `c`.
pub open spec fn hex_value(c: u8) -> Option<u8> {
    if 48 <= c <= 57 {
        Some((c - 48) as u8)
    } else if 97 <= c <= 102 {
        Some((c - 97 + 10) as u8)
    } else if 65 <= c <= 70 {
        Some((c - 65 + 10) as u8)
    } else {
        None
    }
}

/// Computes `hex_value`.
pub fn hex_to_u8(c: u8) -> (value: Option<u8>)
    ensures
        value == hex_value(c),
        value matches Some(v) ==> v < 16,
{
    if 48 <= c && c <= 57 {
        Some(c - 48)
    } else if 97 <= c && c <= 102 {
        Some(c - 97 + 10)
    } else if 65 <= c && c <= 70 {
        Some(c - 65 + 10)
    } else {
        None
    }
}

/// The percent sign.
pub const PERCENT: u8 = 37;

/// `bytes` starts with an escape: a percent sign and two hexadecimal digits.
pub open spec fn starts_with_escape(bytes: Seq<u8>) -> bool {
    bytes.len() >= 3 && bytes[0] == PERCENT && hex_value(bytes[1]) is Some && hex_value(bytes[2])
        is Some
}

/// `bytes` with every escape replaced by the byte that it stands for. A
/// percent sign that starts no escape stays, and the two bytes after it, as
/// far as there are any, are dropped.
pub open spec fn percent_decoded(bytes: Seq<u8>) -> Seq<u8>
    decreases bytes.len(),
{
    if bytes.len() == 0 {
        Seq::empty()
    } else if starts_with_escape(bytes) {
        seq![(hex_value(bytes[1])->0 * 16 + hex_value(bytes[2])->0) as u8] + percent_decoded(
            bytes.skip(3),
        )
    } else if bytes[0] == PERCENT {
        seq![PERCENT] + percent_decoded(
            bytes.skip(
                if bytes.len() >= 3 {
                    3
                } else {
                    bytes.len() as int
                },
            ),
        )
    } else {
        seq![bytes[0]] + percent_decoded(bytes.skip(1))
    }
}

/// Replaces the escapes in `bytes`: see `percent_decoded`.
pub fn decode_bytes(bytes: &[u8]) -> (out: Vec<u8>)
    ensures
        out@ == percent_decoded(bytes@),
{
    let mut out: Vec<u8> = Vec::new();
    let mut i: usize = 0;
    proof {
        assert(bytes@.skip(0) == bytes@);
        assert(out@ + percent_decoded(bytes@) =~= percent_decoded(bytes@));
    }
    while i < bytes.len()
        invariant
            i <= bytes.len(),
            out@ + percent_decoded(bytes@.skip(i as int)) == percent_decoded(bytes@),
        decreases bytes.len() - i,
    {
        let ghost rest = bytes@.skip(i as int);
        let ghost before = out@;
        proof {
            assert(rest[0] == bytes@[i as int]);
            if rest.len() >= 3 {
                assert(rest[1] == bytes@[i + 1]);
                assert(rest[2] == bytes@[i + 2]);
            }
        }
        let b = bytes[i];
        if b == PERCENT {
            let mut done = false;
            if bytes.len() - i >= 3 {
                match (hex_to_u8(bytes[i + 1]), hex_to_u8(bytes[i + 2])) {
                    (Some(h), Some(l)) => {
                        out.push(h * 16 + l);
                        done = true;
                    },
                    _ => {},
                }
            }
            if !done {
                out.push(b);
            }
            let step: usize = if bytes.len() - i >= 3 {
                3
            } else {
                bytes.len() - i
            };
            proof {
                assert(rest.skip(step as int) =~= bytes@.skip(i + step));
                assert(percent_decoded(rest) == seq![out@[before.len() as int]] + percent_decoded(
                    rest.skip(step as int),
                ));
                assert(out@ + percent_decoded(bytes@.skip(i + step)) =~= before + percent_decoded(
                    rest,
                ));
            }
            i = i + step;
        } else {
            out.push(b);
            proof {
                assert(rest.skip(1) =~= bytes@.skip(i + 1));
                assert(out@ + percent_decoded(bytes@.skip(i + 1)) =~= before + percent_decoded(
                    rest,
                ));
            }
            i = i + 1;
        }
    }
    proof {
        assert(percent_decoded(bytes@.skip(bytes.len() as int)) =~= Seq::empty());
        assert(out@ + Seq::<u8>::empty() =~= out@);
    }
    out
}

/// `String::from_utf8` of std: the string that `bytes` encode, or an error
/// where they are no UTF-8.
#[verifier::external_body]
fn string_from_utf8(bytes: Vec<u8>) -> (text: Option<String>)
    ensures
        text is Some <==> valid_utf8(bytes@),
        text matches Some(s) ==> s@ == decode_utf8(bytes@),
{
    String::from_utf8(bytes).ok()
}

/// The text that `input` stands for as part of a URL: every escape of a
/// percent sign and two hexadecimal digits is replaced by its byte, and the
/// bytes are read as UTF-8.
pub open spec fn url_decoded(input: Seq<char>) -> Result<Seq<char>, DecodeError> {
    let bytes = percent_decoded(vstd::utf8::encode_utf8(input));
    if valid_utf8(bytes) {
        Ok(decode_utf8(bytes))
    } else {
        Err(DecodeError::InvalidUtf8)
    }
}

/// Decodes the escapes of a URL: see `url_decoded`.
pub fn decode(input: &str) -> (text: Result<String, DecodeError>)
    ensures
        text is Ok <==> url_decoded(input@) is Ok,
        text matches Ok(s) ==> url_decoded(input@) == Ok::<Seq<char>, DecodeError>(s@),
        text matches Err(e) ==> url_decoded(input@) == Err::<Seq<char>, DecodeError>(e),
{
    let bytes = decode_bytes(input.as_bytes());
    match string_from_utf8(bytes) {
        Some(s) => Ok(s),
        None => Err(DecodeError::InvalidUtf8),
    }
}

/// What the entries of `entries` hold, in order.
pub open spec fn desktop_views(entries: Seq<DesktopEntry>) -> Seq<DesktopView> {
    entries.map_values(|e: DesktopEntry| e@)
}

/// The program that a desktop entry describes.
pub open spec fn item_of(entry: DesktopView) -> ItemView {
    ItemView {
        name: entry.name,
        path: entry.command,
        icon: entry.icon,
        args: Seq::empty(),
        item_type: ItemType::Program,
    }
}

/// The programs of the first `n` of `entries` that are offered, in order.
pub open spec fn offered_upto(entries: Seq<DesktopView>, n: nat) -> Seq<ItemView>
    decreases n,
{
    if n == 0 {
        Seq::empty()
    } else if !entries[n - 1].no_display && !entries[n - 1].hidden {
        offered_upto(entries, (n - 1) as nat).push(item_of(entries[n - 1]))
    } else {
        offered_upto(entries, (n - 1) as nat)
    }
}

/// The programs that are installed, from the desktop entries that were
/// found: those that are neither hidden nor marked as not displayed, in the
/// order of their names, one for each name.
pub fn installed_apps_from(entries: &Vec<DesktopEntry>) -> (apps: Vec<LaunchItem>)
    ensures
        item_views(apps@) == one_per_name(offered_upto(desktop_views(entries@), entries@.len())),
{
    let mut offered: Vec<LaunchItem> = Vec::new();
    let mut i: usize = 0;
    while i < entries.len()
        invariant
            i <= entries.len(),
            item_views(offered@) == offered_upto(desktop_views(entries@), i as nat),
        decreases entries.len() - i,
    {
        proof {
            assert(desktop_views(entries@)[i as int] == entries@[i as int]@);
        }
        if entries[i].is_visible() {
            let ghost before = item_views(offered@);
            let item = entries[i].to_item();
            offered.push(item);
            proof {
                assert(item_views(offered@) =~= before.push(item_of(entries@[i as int]@)));
            }
        }
        i += 1;
    }
    unique_by_name(&offered)
}

/// The command by which a program is known in the history of the shell: the
/// name of the file that the first word of its path names.
pub open spec fn command_key(path: Seq<char>) -> Option<Seq<char>> {
    if words_of(path).len() == 0 {
        None
    } else {
        base_name(words_of(path)[0])
    }
}

/// The keys of `apps`, in order.
pub open spec fn command_keys(apps: Seq<ItemView>) -> Seq<Option<Seq<char>>> {
    apps.map_values(|a: ItemView| command_key(a.path))
}

/// The commands of `counts`, in order.
pub open spec fn commands_of(counts: Seq<CountView>) -> Seq<Seq<char>> {
    counts.map_values(|c: CountView| c.command)
}

/// The programs that are used most, at most `limit`: the commands of the
/// history in the order of their counts, the highest first, each giving the
/// program whose file it names, if there is one.
pub fn frequent_programs_from(
    counts: &Vec<CommandCount>,
    apps: &Vec<LaunchItem>,
    limit: usize,
) -> (out:Vec<LaunchItem>)
    ensures
        item_views(out@) == frequent(
            item_views(apps@),
            command_keys(item_views(apps@)),
            count_views(counts@),
            commands_of(count_views(counts@)),
            limit as nat,
        ),
        out@.len() <= limit,
{
    let mut keys: Vec<Option<Vec<char>>> = Vec::new();
    let mut i: usize = 0;
    while i < apps.len()
        invariant
            i <= apps.len(),
            keys@.len() == i,
            key_views(keys@) == command_keys(item_views(apps@)).take(i as int),
        decreases apps.len() - i,
    {
        let chars = chars_of(apps[i].path.as_str());
        let words = split_words(&chars);
        let key = if words.len() == 0 {
            None
        } else {
            proof {
                assert(part_views(words@)[0] == words@[0]@);
            }
            base_name_of(&words[0])
        };
        keys.push(key);
        proof {
            let t = command_keys(item_views(apps@));
            assert(t[i as int] == command_key(apps@[i as int]@.path));
            assert(key_views(keys@) =~= t.take(i as int).push(t[i as int]));
            assert(t.take(i + 1) =~= t.take(i as int).push(t[i as int]));
        }
        i += 1;
    }
    let mut commands: Vec<Vec<char>> = Vec::new();
    let mut k: usize = 0;
    while k < counts.len()
        invariant
            k <= counts.len(),
            commands@.len() == k,
            part_views(commands@) == commands_of(count_views(counts@)).take(k as int),
        decreases counts.len() - k,
    {
        commands.push(chars_of(counts[k].command.as_str()));
        proof {
            let t = commands_of(count_views(counts@));
            assert(part_views(commands@) =~= t.take(k as int).push(t[k as int]));
            assert(t.take(k + 1) =~= t.take(k as int).push(t[k as int]));
        }
        k += 1;
    }
    proof {
        let t = command_keys(item_views(apps@));
        assert(t.take(apps.len() as int) == t);
        let c = commands_of(count_views(counts@));
        assert(c.take(counts.len() as int) == c);
    }
    pick_frequent(apps, &keys, counts, &commands, limit)
}

} // verus!
