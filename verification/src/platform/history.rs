//! The history of the shell: which commands were typed, and how often.

use crate::config::{item_views, ItemView, LaunchItem};
use crate::order::{arranged, positions, ranks_of, sorted_order, stable_order};
use crate::text::{
    chars_of, find_char, first_of, lines_of, part_views, pieces_of, same_chars, split_at_char,
    split_lines, split_words, string_of, words_of,
};
use vstd::prelude::*;

verus! {

/// A command and the number of times it was typed.
#[derive(Debug)]
pub struct CommandCount {
    pub command: String,
    pub count: usize,
}

/// A command and its count, as mathematical values.
pub struct CountView {
    pub command: Seq<char>,
    pub count: usize,
}

impl View for CommandCount {
    type V = CountView;

    open spec fn view(&self) -> CountView {
        CountView { command: self.command@, count: self.count }
    }
}

/// What the counts of `counts` hold, in order.
pub open spec fn count_views(counts: Seq<CommandCount>) -> Seq<CountView> {
    counts.map_values(|c: CommandCount| c@)
}

/// The dialect of a history file.
#[derive(Clone, Copy, Debug, PartialEq, Eq, Structural)]
pub enum Shell {
    /// One command on each line.
    Bash,
    /// A command may stand behind a time stamp and a semicolon.
    Zsh,
}

/// The part of a line of a history that holds the command: in the history of
/// zsh what stands behind the first semicolon, up to the next; else the line.
pub open spec fn command_part(line: Seq<char>, shell: Shell) -> Seq<char> {
    if shell == Shell::Zsh && first_of(line, ';') < line.len() {
        pieces_of(line, ';')[1]
    } else {
        line
    }
}

/// The command that a line of a history holds: the first word of its command
/// part, if there is one.
pub open spec fn command_in(line: Seq<char>, shell: Shell) -> Option<Seq<char>> {
    let words = words_of(command_part(line, shell));
    if words.len() > 0 {
        Some(words[0])
    } else {
        None
    }
}

/// The position of the count of `command` in `counts`, and the length of
/// `counts` where it has none.
pub open spec fn count_position(counts: Seq<CountView>, command: Seq<char>) -> int
    decreases counts.len(),
{
    if counts.len() == 0 {
        0
    } else {
        let before = count_position(counts.drop_last(), command);
        if before < counts.len() - 1 {
            before
        } else if counts.last().command == command {
            counts.len() - 1
        } else {
            counts.len() as int
        }
    }
}

/// One more than `count`, as far as a count goes.
pub open spec fn next_count(count: usize) -> usize {
    if count < usize::MAX {
        (count + 1) as usize
    } else {
        count
    }
}

/// The counts after `command` was typed once more: its count goes up by
/// one, or it gets a count of one at the end.
pub open spec fn counted(counts: Seq<CountView>, command: Seq<char>) -> Seq<CountView> {
    let at = count_position(counts, command);
    if at < counts.len() {
        counts.update(at, CountView { count: next_count(counts[at].count), ..counts[at] })
    } else {
        counts.push(CountView { command, count: 1 })
    }
}

/// The counts after the first `n` of `lines` were read.
pub open spec fn counted_upto(
    counts: Seq<CountView>,
    lines: Seq<Seq<char>>,
    shell: Shell,
    n: nat,
) -> Seq<CountView>
    decreases n,
{
    if n == 0 {
        counts
    } else {
        let before = counted_upto(counts, lines, shell, (n - 1) as nat);
        match command_in(lines[n - 1], shell) {
            Some(command) => counted(before, command),
            None => before,
        }
    }
}

/// The counts after a history with the text `content` was read.
pub open spec fn with_history(counts: Seq<CountView>, content: Seq<char>, shell: Shell) -> Seq<
    CountView,
> {
    counted_upto(counts, lines_of(content), shell, lines_of(content).len())
}

/// Once a prefix of `counts` holds `command`, the position of its count is
/// the same in all of `counts`.
proof fn lemma_count_position_stays(counts: Seq<CountView>, command: Seq<char>, n: int)
    requires
        0 <= n <= counts.len(),
        count_position(counts.take(n), command) < n,
    ensures
        count_position(counts, command) == count_position(counts.take(n), command),
    decreases counts.len() - n,
{
    if n == counts.len() {
        assert(counts.take(n) == counts);
    } else {
        assert(counts.take(n + 1).drop_last() == counts.take(n));
        lemma_count_position_stays(counts, command, n + 1);
    }
}

/// Counts `command` once more: see `counted`.
pub fn count_command(counts: &mut Vec<CommandCount>, command: &Vec<char>)
    ensures
        count_views(final(counts)@) == counted(count_views(old(counts)@), command@),
{
    let ghost before = count_views(counts@);
    let mut i: usize = 0;
    while i < counts.len()
        invariant
            i <= counts.len(),
            *counts == *old(counts),
            before == count_views(counts@),
            count_position(before.take(i as int), command@) == i,
        decreases counts.len() - i,
    {
        proof {
            assert(before.take(i + 1).drop_last() == before.take(i as int));
            assert(before.take(i + 1).last() == counts@[i as int]@);
        }
        let other = chars_of(counts[i].command.as_str());
        if same_chars(&other, command) {
            proof {
                lemma_count_position_stays(before, command@, i + 1);
            }
            let count = counts[i].count;
            let more = if count < usize::MAX {
                count + 1
            } else {
                count
            };
            let name = counts[i].command.clone();
            counts.set(i, CommandCount { command: name, count: more });
            proof {
                assert(count_views(counts@) =~= counted(before, command@));
            }
            return ;
        }
        i += 1;
    }
    proof {
        assert(before.take(counts.len() as int) == before);
    }
    counts.push(CommandCount { command: string_of(command), count: 1 });
    proof {
        assert(count_views(counts@) =~= counted(before, command@));
    }
}

/// The command that a line of a history holds: see `command_in`.
pub fn command_of_line(line: &Vec<char>, shell: Shell) -> (command: Option<Vec<char>>)
    ensures
        command is Some <==> command_in(line@, shell) is Some,
        command matches Some(c) ==> command_in(line@, shell) == Some(c@),
{
    let semicolon = find_char(line, 0, ';');
    proof {
        assert(line@.skip(0) == line@);
    }
    let mut words = if shell == Shell::Zsh && semicolon < line.len() {
        let pieces = split_at_char(line, ';');
        proof {
            let n = first_of(line@, ';');
            assert(pieces_of(line@, ';') == seq![line@.take(n)] + pieces_of(line@.skip(n + 1), ';'));
            assert(pieces_of(line@, ';').len() >= 2);
            assert(part_views(pieces@)[1] == pieces@[1]@);
        }
        split_words(&pieces[1])
    } else {
        split_words(line)
    };
    if words.len() > 0 {
        let ghost all = part_views(words@);
        let first = words.swap_remove(0);
        proof {
            assert(all[0] == first@);
        }
        Some(first)
    } else {
        None
    }
}

/// Reads a history: each line that holds a command counts once for the
/// command.
pub fn count_history(counts: &mut Vec<CommandCount>, content: &str, shell: Shell)
    ensures
        count_views(final(counts)@) == with_history(count_views(old(counts)@), content@, shell),
{
    let chars = chars_of(content);
    let lines = split_lines(&chars);
    let ghost all = part_views(lines@);
    let ghost start = count_views(counts@);
    let mut i: usize = 0;
    while i < lines.len()
        invariant
            i <= lines.len(),
            all == part_views(lines@),
            count_views(counts@) == counted_upto(start, all, shell, i as nat),
        decreases lines.len() - i,
    {
        proof {
            assert(all[i as int] == lines@[i as int]@);
        }
        match command_of_line(&lines[i], shell) {
            Some(command) => {
                count_command(counts, &command);
            },
            None => {},
        }
        i += 1;
    }
}

/// The texts of `keys`, in order.
pub open spec fn key_views(keys: Seq<Option<Vec<char>>>) -> Seq<Option<Seq<char>>> {
    keys.map_values(
        |k: Option<Vec<char>>|
            match k {
                Some(k) => Some(k@),
                None => None,
            },
    )
}

/// The last position of `keys` that holds `command`, and `-1` where none
/// does.
pub open spec fn app_for(keys: Seq<Option<Seq<char>>>, command: Seq<char>) -> int
    decreases keys.len(),
{
    if keys.len() == 0 {
        -1
    } else if keys.last() == Some(command) {
        keys.len() - 1
    } else {
        app_for(keys.drop_last(), command)
    }
}

/// The programs that the first `n` of `commands` stand for, in the order of
/// the commands: for each command the last of `apps` whose key it is.
pub open spec fn picked(
    apps: Seq<ItemView>,
    keys: Seq<Option<Seq<char>>>,
    commands: Seq<Seq<char>>,
    n: nat,
) -> Seq<ItemView>
    decreases n,
{
    if n == 0 {
        Seq::empty()
    } else {
        let head = picked(apps, keys, commands, (n - 1) as nat);
        let at = app_for(keys, commands[n - 1]);
        if 0 <= at < apps.len() {
            head.push(apps[at])
        } else {
            head
        }
    }
}

/// The numbers of `counts`, in order.
pub open spec fn numbers_of(counts: Seq<CountView>) -> Seq<int> {
    counts.map_values(|c: CountView| c.count as int)
}

/// The programs that are used most, at most `limit`: the commands are taken
/// in the order of their counts, the highest first and commands of one count
/// in the order in which they stand; each command that is the key of a
/// program gives that program.
pub open spec fn frequent(
    apps: Seq<ItemView>,
    keys: Seq<Option<Seq<char>>>,
    counts: Seq<CountView>,
    commands: Seq<Seq<char>>,
    limit: nat,
) -> Seq<ItemView> {
    let order = sorted_order::<usize>(numbers_of(counts), true);
    let all = picked(apps, keys, arranged(commands, order), order.len());
    all.take(if limit < all.len() {
        limit as int
    } else {
        all.len() as int
    })
}

/// Computes `app_for`.
fn find_app(keys: &Vec<Option<Vec<char>>>, command: &Vec<char>) -> (at: Option<usize>)
    ensures
        at is None <==> app_for(key_views(keys@), command@) == -1,
        at matches Some(i) ==> i == app_for(key_views(keys@), command@) && i < keys@.len(),
        -1 <= app_for(key_views(keys@), command@) < keys@.len(),
{
    let mut i: usize = keys.len();
    let ghost all = key_views(keys@);
    proof {
        assert(all.take(keys.len() as int) == all);
    }
    while i > 0
        invariant
            i <= keys.len(),
            all == key_views(keys@),
            app_for(all, command@) == app_for(all.take(i as int), command@),
        decreases i,
    {
        proof {
            assert(all.take(i as int).drop_last() == all.take(i - 1));
            assert(all.take(i as int).last() == all[i - 1]);
        }
        let hit = match &keys[i - 1] {
            Some(k) => same_chars(k, command),
            None => false,
        };
        if hit {
            return Some(i - 1);
        }
        i -= 1;
    }
    None
}

/// Picks the programs that are used most: see `frequent`. There is a key for
/// each program and a command for each count.
pub(crate) fn pick_frequent(
    apps: &Vec<LaunchItem>,
    keys: &Vec<Option<Vec<char>>>,
    counts: &Vec<CommandCount>,
    commands: &Vec<Vec<char>>,
    limit: usize,
) -> (out: Vec<LaunchItem>)
    requires
        keys@.len() == apps@.len(),
        commands@.len() == counts@.len(),
    ensures
        item_views(out@) == frequent(
            item_views(apps@),
            key_views(keys@),
            count_views(counts@),
            part_views(commands@),
            limit as nat,
        ),
        out@.len() <= limit,
{
    let mut numbers: Vec<usize> = Vec::new();
    let mut i: usize = 0;
    while i < counts.len()
        invariant
            i <= counts.len(),
            ranks_of(numbers@) == numbers_of(count_views(counts@)).take(i as int),
        decreases counts.len() - i,
    {
        numbers.push(counts[i].count);
        proof {
            let t = numbers_of(count_views(counts@));
            assert(ranks_of(numbers@) =~= t.take(i as int).push(t[i as int]));
            assert(t.take(i + 1) =~= t.take(i as int).push(t[i as int]));
        }
        i += 1;
    }
    proof {
        let t = numbers_of(count_views(counts@));
        assert(t.take(counts.len() as int) == t);
    }
    let order = stable_order(&numbers, true);
    let ghost sorted = arranged(part_views(commands@), positions(order@));
    let ghost app_views = item_views(apps@);
    let ghost keys_view = key_views(keys@);
    let mut out: Vec<LaunchItem> = Vec::new();
    let mut k: usize = 0;
    while k < order.len()
        invariant
            k <= order.len(),
            order@.len() == commands@.len(),
            keys@.len() == apps@.len(),
            forall|p: int| 0 <= p < order@.len() ==> #[trigger] order@[p] < commands@.len(),
            sorted == arranged(part_views(commands@), positions(order@)),
            app_views == item_views(apps@),
            keys_view == key_views(keys@),
            out@.len() <= limit,
            item_views(out@) == picked(app_views, keys_view, sorted, k as nat).take(
                if limit < picked(app_views, keys_view, sorted, k as nat).len() {
                    limit as int
                } else {
                    picked(app_views, keys_view, sorted, k as nat).len() as int
                },
            ),
        decreases order.len() - k,
    {
        let command = &commands[order[k]];
        proof {
            assert(sorted[k as int] == command@);
        }
        let ghost head = picked(app_views, keys_view, sorted, k as nat);
        proof {
            assert(item_views(out@).len() == out@.len());
            if out@.len() < limit {
                assert(head.len() == out@.len());
                assert(head.take(head.len() as int) == head);
            } else {
                assert(head.len() >= limit);
            }
        }
        match find_app(keys, command) {
            Some(at) => {
                if out.len() < limit {
                    out.push(apps[at].clone());
                    proof {
                        assert(item_views(out@) =~= head.push(app_views[at as int]));
                    }
                } else {
                    proof {
                        assert(head.push(app_views[at as int]).take(limit as int) =~= head.take(
                            limit as int,
                        ));
                    }
                }
            },
            None => {},
        }
        k += 1;
    }
    out
}

} // verus!
