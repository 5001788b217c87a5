//! Desktop entries: the files in which a Linux desktop describes the
//! programs that are installed.

use crate::config::{texts, ItemType, ItemView, LaunchItem};
use crate::text::{
    chars_of, find_char, first_of, joined, lines_of, part_views, pieces_of,
    same_chars, slice_chars, split_at_char, split_lines, split_words, starts_with, string_of,
    text_of, trim_chars, trimmed, words_of,
};
use vstd::prelude::*;

verus! {

/// What a desktop entry says of a program.
#[derive(Debug)]
pub struct DesktopEntry {
    pub name: String,
    pub command: String,
    pub icon: Option<String>,
    pub no_display: bool,
    pub hidden: bool,
    pub terminal: bool,
    pub categories: Vec<String>,
}

/// What a desktop entry holds, as mathematical values.
pub struct DesktopView {
    pub name: Seq<char>,
    pub command: Seq<char>,
    pub icon: Option<Seq<char>>,
    pub no_display: bool,
    pub hidden: bool,
    pub terminal: bool,
    pub categories: Seq<Seq<char>>,
}

impl View for DesktopEntry {
    type V = DesktopView;

    open spec fn view(&self) -> DesktopView {
        DesktopView {
            name: self.name@,
            command: self.command@,
            icon: text_of(self.icon),
            no_display: self.no_display,
            hidden: self.hidden,
            terminal: self.terminal,
            categories: texts(self.categories@),
        }
    }
}

/// The entry of which nothing is known yet.
pub open spec fn blank_entry() -> DesktopView {
    DesktopView {
        name: Seq::empty(),
        command: Seq::empty(),
        icon: None,
        no_display: false,
        hidden: false,
        terminal: false,
        categories: Seq::empty(),
    }
}

/// `word` is no placeholder for a file or an address: it does not start with
/// a percent sign.
pub open spec fn is_plain_word(word: Seq<char>) -> bool {
    !(word.len() > 0 && word[0] == '%')
}

/// The command of an `Exec` line: its words without the placeholders, with
/// one blank between each two.
pub open spec fn command_of(value: Seq<char>) -> Seq<char> {
    joined(words_of(value).filter(|w: Seq<char>| is_plain_word(w)), seq![' '])
}

/// The entry after the line `key=value` of its section.
pub open spec fn assigned(entry: DesktopView, key: Seq<char>, value: Seq<char>) -> DesktopView {
    if key == "Name"@ {
        if entry.name.len() == 0 {
            DesktopView { name: value, ..entry }
        } else {
            entry
        }
    } else if key == "Exec"@ {
        DesktopView { command: command_of(value), ..entry }
    } else if key == "Icon"@ {
        DesktopView { icon: Some(value), ..entry }
    } else if key == "NoDisplay"@ {
        DesktopView { no_display: value == "true"@, ..entry }
    } else if key == "Hidden"@ {
        DesktopView { hidden: value == "true"@, ..entry }
    } else if key == "Terminal"@ {
        DesktopView { terminal: value == "true"@, ..entry }
    } else if key == "Categories"@ {
        DesktopView { categories: pieces_of(value, ';'), ..entry }
    } else {
        entry
    }
}

/// How far the reading of a desktop file has come: what is known of the
/// entry, and whether the lines read now belong to its section.
pub struct Reading {
    pub entry: DesktopView,
    pub inside: bool,
}

/// The reading after one more line. The header `[Desktop Entry]` opens the
/// section of the entry, any other header closes it; inside the section a
/// line with an equals sign assigns a value to a key.
pub open spec fn read_line(reading: Reading, raw: Seq<char>) -> Reading {
    let line = trimmed(raw);
    if line == "[Desktop Entry]"@ {
        Reading { inside: true, ..reading }
    } else if starts_with(line, seq!['[']) {
        Reading { inside: false, ..reading }
    } else if !reading.inside {
        reading
    } else {
        let n = first_of(line, '=');
        if n >= line.len() {
            reading
        } else {
            Reading { entry: assigned(reading.entry, line.take(n), line.skip(n + 1)), ..reading }
        }
    }
}

/// The reading after the first `n` of `lines`.
pub open spec fn read_upto(lines: Seq<Seq<char>>, n: nat) -> Reading
    decreases n,
{
    if n == 0 {
        Reading { entry: blank_entry(), inside: false }
    } else {
        read_line(read_upto(lines, (n - 1) as nat), lines[n - 1])
    }
}

/// The entry that a desktop file with the text `content` describes.
pub open spec fn entry_of(content: Seq<char>) -> DesktopView {
    read_upto(lines_of(content), lines_of(content).len()).entry
}

/// `parts` joined with one blank between each two, after one more part.
proof fn lemma_joined_push(parts: Seq<Seq<char>>, part: Seq<char>, between: Seq<char>)
    ensures
        joined(parts.push(part), between) == if parts.len() == 0 {
            part
        } else {
            joined(parts, between) + between + part
        },
{
    assert(parts.push(part).drop_last() =~= parts);
    assert(parts.push(part).last() == part);
    if parts.len() == 0 {
        assert(parts.push(part)[0] == part);
    }
}

/// Computes `command_of`.
pub fn exec_command(value: &Vec<char>) -> (command: Vec<char>)
    ensures
        command@ == command_of(value@),
{
    let words = split_words(value);
    let ghost all = part_views(words@);
    let ghost plain = |w: Seq<char>| is_plain_word(w);
    let mut command: Vec<char> = Vec::new();
    let mut first = true;
    let mut i: usize = 0;
    while i < words.len()
        invariant
            i <= words.len(),
            all == part_views(words@),
            plain == |w: Seq<char>| is_plain_word(w),
            first <==> all.take(i as int).filter(plain).len() == 0,
            command@ == joined(all.take(i as int).filter(plain), seq![' ']),
        decreases words.len() - i,
    {
        proof {
            assert(all.take(i + 1).drop_last() == all.take(i as int));
            assert(all.take(i + 1).last() == words@[i as int]@);
            reveal(Seq::filter);
        }
        let word = &words[i];
        if !(word.len() > 0 && word[0] == '%') {
            let ghost kept = all.take(i as int).filter(plain);
            let ghost before = command@;
            if !first {
                command.push(' ');
            }
            let mut k: usize = 0;
            let ghost head = command@;
            while k < word.len()
                invariant
                    k <= word.len(),
                    command@ == head + word@.take(k as int),
                decreases word.len() - k,
            {
                command.push(word[k]);
                proof {
                    assert(head + word@.take(k + 1) =~= (head + word@.take(k as int)).push(
                        word@[k as int],
                    ));
                }
                k += 1;
            }
            proof {
                assert(word@.take(word.len() as int) == word@);
                lemma_joined_push(kept, word@, seq![' ']);
                if first {
                    assert(command@ =~= word@);
                } else {
                    assert(command@ =~= before + seq![' '] + word@);
                }
            }
            first = false;
        }
        i += 1;
    }
    proof {
        assert(all.take(words.len() as int) == all);
    }
    command
}

/// An entry while it is read, its texts as characters.
struct Draft {
    name: Vec<char>,
    command: Vec<char>,
    icon: Option<Vec<char>>,
    no_display: bool,
    hidden: bool,
    terminal: bool,
    categories: Vec<Vec<char>>,
}

impl View for Draft {
    type V = DesktopView;

    closed spec fn view(&self) -> DesktopView {
        DesktopView {
            name: self.name@,
            command: self.command@,
            icon: match self.icon {
                Some(i) => Some(i@),
                None => None,
            },
            no_display: self.no_display,
            hidden: self.hidden,
            terminal: self.terminal,
            categories: part_views(self.categories@),
        }
    }
}

/// Whether `chars` is the text `literal`.
fn is_text(chars: &Vec<char>, literal: &str) -> (r: bool)
    ensures
        r == (chars@ == literal@),
{
    let other = chars_of(literal);
    same_chars(chars, &other)
}

/// Assigns `value` to `key`: see `assigned`.
fn assign(draft: &mut Draft, key: &Vec<char>, value: Vec<char>)
    ensures
        final(draft)@ == assigned(old(draft)@, key@, value@),
{
    if is_text(key, "Name") {
        if draft.name.len() == 0 {
            draft.name = value;
        }
    } else if is_text(key, "Exec") {
        draft.command = exec_command(&value);
    } else if is_text(key, "Icon") {
        draft.icon = Some(value);
    } else if is_text(key, "NoDisplay") {
        draft.no_display = is_text(&value, "true");
    } else if is_text(key, "Hidden") {
        draft.hidden = is_text(&value, "true");
    } else if is_text(key, "Terminal") {
        draft.terminal = is_text(&value, "true");
    } else if is_text(key, "Categories") {
        draft.categories = split_at_char(&value, ';');
    }
}

/// The strings that hold `parts`.
fn strings_of(parts: &Vec<Vec<char>>) -> (out: Vec<String>)
    ensures
        texts(out@) == part_views(parts@),
{
    let mut out: Vec<String> = Vec::new();
    let mut i: usize = 0;
    while i < parts.len()
        invariant
            i <= parts.len(),
            texts(out@) == part_views(parts@).take(i as int),
        decreases parts.len() - i,
    {
        out.push(string_of(&parts[i]));
        proof {
            let t = part_views(parts@);
            assert(texts(out@) =~= t.take(i as int).push(t[i as int]));
            assert(t.take(i + 1) =~= t.take(i as int).push(t[i as int]));
        }
        i += 1;
    }
    proof {
        assert(part_views(parts@).take(parts.len() as int) == part_views(parts@));
    }
    out
}

/// Reads a desktop file. Only the lines of the section `[Desktop Entry]`
/// count, each without the white space at its ends. `Name` is taken from its
/// first line; the command of `Exec` is kept without its placeholders; `Icon` is taken as it
/// stands; `NoDisplay`, `Hidden` and `Terminal` are set by the value `true`;
/// `Categories` are cut at each semicolon.
pub fn parse_desktop_file(content: &str) -> (entry: DesktopEntry)
    ensures
        entry@ == entry_of(content@),
{
    let chars = chars_of(content);
    let lines = split_lines(&chars);
    let mut draft = Draft {
        name: Vec::new(),
        command: Vec::new(),
        icon: None,
        no_display: false,
        hidden: false,
        terminal: false,
        categories: Vec::new(),
    };
    let mut inside = false;
    let ghost all = part_views(lines@);
    proof {
        assert(draft@.categories =~= Seq::empty());
        assert(draft@ == blank_entry());
    }
    let mut i: usize = 0;
    while i < lines.len()
        invariant
            i <= lines.len(),
            all == part_views(lines@),
            draft@ == read_upto(all, i as nat).entry,
            inside == read_upto(all, i as nat).inside,
        decreases lines.len() - i,
    {
        let line = trim_chars(&lines[i]);
        proof {
            assert(all[i as int] == lines@[i as int]@);
        }
        let bracket = line.len() > 0 && line[0] == '[';
        proof {
            assert(bracket <==> starts_with(line@, seq!['['])) by {
                if line@.len() > 0 {
                    assert(line@.take(1) =~= seq![line@[0]]);
                    if line@[0] == '[' {
                        assert(line@.take(1) =~= seq!['[']);
                    } else {
                        assert(line@.take(1)[0] != seq!['['][0]);
                    }
                }
            }
        }
        if is_text(&line, "[Desktop Entry]") {
            inside = true;
        } else if bracket {
            inside = false;
        } else if inside {
            let n = find_char(&line, 0, '=');
            proof {
                assert(line@.skip(0) == line@);
            }
            if n < line.len() {
                let key = slice_chars(&line, 0, n);
                let value = slice_chars(&line, n + 1, line.len());
                proof {
                    assert(line@.subrange(0, n as int) =~= line@.take(n as int));
                    assert(line@.subrange(n + 1, line@.len() as int) =~= line@.skip(n + 1));
                }
                assign(&mut draft, &key, value);
            }
        }
        i += 1;
    }
    DesktopEntry {
        name: string_of(&draft.name),
        command: string_of(&draft.command),
        icon: match &draft.icon {
            Some(i) => Some(string_of(i)),
            None => None,
        },
        no_display: draft.no_display,
        hidden: draft.hidden,
        terminal: draft.terminal,
        categories: strings_of(&draft.categories),
    }
}

impl DesktopEntry {
    /// Whether the entry is offered: it is neither marked as not displayed
    /// nor as hidden.
    pub fn is_visible(&self) -> (r: bool)
        ensures
            r == (!self@.no_display && !self@.hidden),
    {
        !self.no_display && !self.hidden
    }

    /// The program that the entry describes, as a launch item.
    pub fn to_item(&self) -> (item: LaunchItem)
        ensures
            item@ == (ItemView {
                name: self@.name,
                path: self@.command,
                icon: self@.icon,
                args: Seq::empty(),
                item_type: ItemType::Program,
            }),
    {
        crate::platform::program_item(
            self.name.clone(),
            self.command.clone(),
            match &self.icon {
                Some(i) => Some(i.clone()),
                None => None,
            },
        )
    }
}

} // verus!
