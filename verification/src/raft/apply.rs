use super::log::LogEntry;
use crate::kv::KvStore;
use vstd::prelude::*;
use vstd::string::StrSliceExecFns;

verus! {

/// What a log entry's command does to the key-value store.
pub enum StoreCommand {
    /// `SET key value`: stores `value` under `key`.
    Put(Seq<char>, Seq<char>),
    /// `DEL key`: removes `key`.
    Remove(Seq<char>),
}

/// The first position at or after `i` where `s` holds `ch`.
pub open spec fn first_index_from(s: Seq<char>, ch: char, i: int) -> Option<int>
    decreases s.len() - i,
{
    if i < 0 || i >= s.len() {
        None
    } else if s[i] == ch {
        Some(i)
    } else {
        first_index_from(s, ch, i + 1)
    }
}

/// Whether `s` holds no space.
pub open spec fn no_space(s: Seq<char>) -> bool {
    forall|m: int| 0 <= m < s.len() ==> s[m] != ' '
}

/// The store command a log entry's text stands for: `SET key value`, where the
/// key runs up to the first space after `SET ` and the value is the rest, or
/// `DEL key`, where the key is the rest; any other text changes nothing.
pub open spec fn store_command(c: Seq<char>) -> Option<StoreCommand> {
    if c.len() >= 4 && c.subrange(0, 4) == "SET "@ {
        let rest = c.subrange(4, c.len() as int);
        match first_index_from(rest, ' ', 0) {
            Some(i) => Some(StoreCommand::Put(rest.subrange(0, i), rest.subrange(i + 1, rest.len() as int))),
            None => None,
        }
    } else if c.len() >= 4 && c.subrange(0, 4) == "DEL "@ {
        Some(StoreCommand::Remove(c.subrange(4, c.len() as int)))
    } else {
        None
    }
}

/// The store after the command text `c` is applied to `kv`.
pub open spec fn apply_command(kv: Map<Seq<char>, Seq<char>>, c: Seq<char>) -> Map<Seq<char>, Seq<char>> {
    match store_command(c) {
        Some(StoreCommand::Put(k, v)) => kv.insert(k, v),
        Some(StoreCommand::Remove(k)) => kv.remove(k),
        None => kv,
    }
}

/// The store after the commands of `entries` are applied to `kv`, first to last.
pub open spec fn apply_entries(kv: Map<Seq<char>, Seq<char>>, entries: Seq<LogEntry>) -> Map<
    Seq<char>,
    Seq<char>,
>
    decreases entries.len(),
{
    if entries.len() == 0 {
        kv
    } else {
        apply_command(apply_entries(kv, entries.drop_last()), entries.last().command@)
    }
}

/// Whether the command text `c` writes or removes `key`.
pub open spec fn touches(c: Seq<char>, key: Seq<char>) -> bool {
    match store_command(c) {
        Some(StoreCommand::Put(k, _)) => k == key,
        Some(StoreCommand::Remove(k)) => k == key,
        None => false,
    }
}

/// The first position at or after `i` where `s` (of length `len`) holds a space.
fn first_space_from(s: &str, len: usize, i: usize) -> (r: Option<usize>)
    requires
        len == s@.len(),
        i <= len,
    ensures
        match r {
            Some(j) => first_index_from(s@, ' ', i as int) == Some(j as int) && i <= j < len,
            None => first_index_from(s@, ' ', i as int) is None,
        },
{
    let mut j = i;
    while j < len
        invariant
            i <= j <= len,
            len == s@.len(),
            first_index_from(s@, ' ', i as int) == first_index_from(s@, ' ', j as int),
        decreases len - j,
    {
        if s.get_char(j) == ' ' {
            return Some(j);
        }
        j = j + 1;
    }
    None
}

/// Whether the first four characters of `s` (of length `len`) are `a b c d`.
fn starts_with4(s: &str, len: usize, a: char, b: char, c: char, d: char) -> (r: bool)
    requires
        len == s@.len(),
    ensures
        r == (len >= 4 && s@[0] == a && s@[1] == b && s@[2] == c && s@[3] == d),
{
    len >= 4 && s.get_char(0) == a && s.get_char(1) == b && s.get_char(2) == c && s.get_char(3) == d
}

/// Applies the command text of one log entry to `kv`.
pub fn apply_entry_command(kv: &mut KvStore, command: &String)
    ensures
        final(kv)@ == apply_command(old(kv)@, command@),
{
    let s = command.as_str();
    let len = s.unicode_len();
    proof {
        reveal_strlit("SET ");
        reveal_strlit("DEL ");
    }
    if starts_with4(s, len, 'S', 'E', 'T', ' ') {
        assert(s@.subrange(0, 4) =~= "SET "@);
        let rest = s.substring_char(4, len);
        let rlen = rest.unicode_len();
        match first_space_from(rest, rlen, 0) {
            Some(i) => {
                let key = rest.substring_char(0, i).to_string();
                let value = rest.substring_char(i + 1, rlen).to_string();
                kv.insert(key, value);
            },
            None => {},
        }
    } else if starts_with4(s, len, 'D', 'E', 'L', ' ') {
        assert(s@.subrange(0, 4) =~= "DEL "@);
        assert(s@.subrange(0, 4) != "SET "@) by {
            assert(s@.subrange(0, 4)[0] != "SET "@[0]);
        }
        let key = s.substring_char(4, len).to_string();
        kv.remove(&key);
    } else {
        proof {
            if len >= 4 {
                assert(s@.subrange(0, 4) != "SET "@) by {
                    if s@.subrange(0, 4) == "SET "@ {
                        assert(s@.subrange(0, 4)[0] == 'S' && s@.subrange(0, 4)[1] == 'E'
                            && s@.subrange(0, 4)[2] == 'T' && s@.subrange(0, 4)[3] == ' ');
                    }
                }
                assert(s@.subrange(0, 4) != "DEL "@) by {
                    if s@.subrange(0, 4) == "DEL "@ {
                        assert(s@.subrange(0, 4)[0] == 'D' && s@.subrange(0, 4)[1] == 'E'
                            && s@.subrange(0, 4)[2] == 'L' && s@.subrange(0, 4)[3] == ' ');
                    }
                }
            }
        }
    }
}

/// In `s`, a run of characters other than `ch` from `i` up to a `ch` at `j`
/// makes `j` the first position at or after `i` that holds `ch`.
proof fn lemma_first_index_at(s: Seq<char>, ch: char, i: int, j: int)
    requires
        0 <= i <= j < s.len(),
        s[j] == ch,
        forall|m: int| i <= m < j ==> s[m] != ch,
    ensures
        first_index_from(s, ch, i) == Some(j),
    decreases j - i,
{
    if i < j {
        lemma_first_index_at(s, ch, i + 1, j);
    }
}

/// The text of a write of `value` under a key without spaces stands for that write;
/// the text of a delete of `key` stands for that delete.
pub proof fn lemma_command_texts(key: Seq<char>, value: Seq<char>)
    ensures
        no_space(key) ==> store_command("SET "@ + key + " "@ + value) == Some(
            StoreCommand::Put(key, value),
        ),
        store_command("DEL "@ + key) == Some(StoreCommand::Remove(key)),
{
    reveal_strlit("SET ");
    reveal_strlit("DEL ");
    reveal_strlit(" ");
    let c = "SET "@ + key + " "@ + value;
    assert(c.subrange(0, 4) =~= "SET "@);
    let rest = c.subrange(4, c.len() as int);
    assert(rest =~= key + " "@ + value);
    if no_space(key) {
        assert(rest[key.len() as int] == ' ');
        assert forall|m: int| 0 <= m < key.len() implies rest[m] != ' ' by {
            assert(rest[m] == key[m]);
        }
        lemma_first_index_at(rest, ' ', 0, key.len() as int);
        assert(rest.subrange(0, key.len() as int) =~= key);
        assert(rest.subrange(key.len() as int + 1, rest.len() as int) =~= value);
    }
    let d = "DEL "@ + key;
    assert(d.subrange(0, 4) =~= "DEL "@);
    assert(d.subrange(0, 4) != "SET "@) by {
        assert(d.subrange(0, 4)[0] != "SET "@[0]);
    }
    assert(d.subrange(4, d.len() as int) =~= key);
}

/// After the entries are applied, a key holds the value of the last write of it,
/// where no later entry writes or removes it.
pub proof fn lemma_last_write_wins(
    kv: Map<Seq<char>, Seq<char>>,
    entries: Seq<LogEntry>,
    i: int,
    key: Seq<char>,
    value: Seq<char>,
)
    requires
        0 <= i < entries.len(),
        no_space(key),
        entries[i].command@ == "SET "@ + key + " "@ + value,
        forall|j: int| i < j < entries.len() ==> !touches(#[trigger] entries[j].command@, key),
    ensures
        apply_entries(kv, entries).contains_key(key),
        apply_entries(kv, entries)[key] == value,
    decreases entries.len(),
{
    lemma_command_texts(key, value);
    let init = entries.drop_last();
    if i == entries.len() - 1 {
    } else {
        assert forall|j: int| i < j < init.len() implies !touches(#[trigger] init[j].command@, key) by {
            assert(init[j] == entries[j]);
        }
        assert(init[i] == entries[i]);
        lemma_last_write_wins(kv, init, i, key, value);
        assert(!touches(entries[entries.len() - 1].command@, key));
    }
}

/// Entries none of which writes or removes `key` leave what the store holds
/// under it as it was.
pub proof fn lemma_untouched_key(kv: Map<Seq<char>, Seq<char>>, entries: Seq<LogEntry>, key: Seq<char>)
    requires
        forall|j: int| 0 <= j < entries.len() ==> !touches(#[trigger] entries[j].command@, key),
    ensures
        apply_entries(kv, entries).contains_key(key) == kv.contains_key(key),
        kv.contains_key(key) ==> apply_entries(kv, entries)[key] == kv[key],
    decreases entries.len(),
{
    if entries.len() > 0 {
        let init = entries.drop_last();
        assert forall|j: int| 0 <= j < init.len() implies !touches(#[trigger] init[j].command@, key) by {
            assert(init[j] == entries[j]);
        }
        lemma_untouched_key(kv, init, key);
        assert(!touches(entries[entries.len() - 1].command@, key));
    }
}

/// How the text of a write under a key holding a space reads: the key runs up
/// to its first space, and the rest of it, a space and the value make the
/// value. So a node that applies the entry stores that split pair, where the
/// leader that wrote it stored the key and value as given.
pub proof fn lemma_spaced_key_command(key: Seq<char>, value: Seq<char>, i: int)
    requires
        first_index_from(key, ' ', 0) == Some(i),
    ensures
        store_command("SET "@ + key + " "@ + value) == Some(
            StoreCommand::Put(key.subrange(0, i), key.subrange(i + 1, key.len() as int) + " "@ + value),
        ),
{
    reveal_strlit("SET ");
    reveal_strlit(" ");
    let c = "SET "@ + key + " "@ + value;
    assert(c.subrange(0, 4) =~= "SET "@);
    let rest = c.subrange(4, c.len() as int);
    assert(rest =~= key + " "@ + value);
    lemma_first_index_prefix(key, " "@ + value, ' ', 0, i);
    lemma_first_index_bounds(key, ' ', 0);
    assert(rest =~= key + (" "@ + value));
    assert(rest.subrange(0, i) =~= key.subrange(0, i));
    assert(rest.subrange(i + 1, rest.len() as int) =~= key.subrange(i + 1, key.len() as int) + " "@
        + value);
}

/// A position found by the search lies in the sequence and holds what was searched for.
proof fn lemma_first_index_bounds(s: Seq<char>, ch: char, j: int)
    requires
        0 <= j,
    ensures
        first_index_from(s, ch, j) matches Some(i) ==> j <= i < s.len() && s[i] == ch,
    decreases s.len() - j,
{
    if j < s.len() && s[j] != ch {
        lemma_first_index_bounds(s, ch, j + 1);
    }
}

/// The first position of `ch` in `a` found from `j` is also the first in `a`
/// followed by anything.
proof fn lemma_first_index_prefix(a: Seq<char>, b: Seq<char>, ch: char, j: int, i: int)
    requires
        0 <= j,
        first_index_from(a, ch, j) == Some(i),
    ensures
        first_index_from(a + b, ch, j) == Some(i),
    decreases a.len() - j,
{
    if j < a.len() && a[j] != ch {
        lemma_first_index_prefix(a, b, ch, j + 1, i);
        assert((a + b)[j] == a[j]);
    } else {
        assert((a + b)[j] == a[j]);
    }
}

} // verus!
