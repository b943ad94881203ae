use crate::text::{
    count_char, count_char_exec, is_whitespace, is_word, lemma_count_char_concat,
    lemma_count_space_in_word, lemma_word_end_run, skip_space, skip_space_exec, string_from_utf8,
    word, word_end, word_end_exec, word_start,
};
use vstd::pervasive::unreached;
use vstd::prelude::*;
use vstd::string::StrSliceExecFns;
use vstd::utf8::{decode_utf8, encode_utf8, valid_utf8};

verus! {

/// What an operation does to the store.
#[derive(Debug, Clone, Copy, PartialEq, Eq, Structural)]
pub enum Command {
    Insert,
    Update,
    Delete,
}

/// A client operation: a command, a key and a value.
pub struct Operation {
    command: Command,
    key: String,
    value: String,
}

/// An operation as a value.
pub struct OperationView {
    pub command: Command,
    pub key: Seq<char>,
    pub value: Seq<char>,
}

impl View for Operation {
    type V = OperationView;

    closed spec fn view(&self) -> OperationView {
        OperationView { command: self.command, key: self.key@, value: self.value@ }
    }
}

/// The word that names a command.
pub open spec fn command_name(c: Command) -> Seq<char> {
    match c {
        Command::Insert => "Insert"@,
        Command::Update => "Update"@,
        Command::Delete => "Delete"@,
    }
}

/// The command a word names, if any.
pub open spec fn command_of_word(w: Seq<char>) -> Option<Command> {
    if w == "Insert"@ {
        Some(Command::Insert)
    } else if w == "Update"@ {
        Some(Command::Update)
    } else if w == "Delete"@ {
        Some(Command::Delete)
    } else {
        None
    }
}

/// The operation a text of the form `command key value` stands for, or the
/// reason it stands for none. The text must hold exactly two spaces; words are
/// separated by white space, and words after the third are ignored.
pub open spec fn parse_operation(s: Seq<char>) -> Result<OperationView, Seq<char>> {
    if count_char(s, ' ') != 2 {
        Err("Invalid number of arguments"@)
    } else {
        match word(s, 0) {
            None => Err("Invalid command"@),
            Some(w) => match command_of_word(w) {
                None => Err("Invalid command"@),
                Some(c) => match word(s, 1) {
                    None => Err("Invalid key"@),
                    Some(k) => match word(s, 2) {
                        None => Err("Invalid value"@),
                        Some(v) => Ok(OperationView { command: c, key: k, value: v }),
                    },
                },
            },
        }
    }
}

/// The text of an operation: command, key and value separated by single spaces.
pub open spec fn operation_text(op: OperationView) -> Seq<char> {
    command_name(op.command) + " "@ + op.key + " "@ + op.value
}

/// Whether two texts are equal.
fn text_eq(a: &str, b: &str) -> (eq: bool)
    ensures
        eq == (a@ == b@),
{
    a.to_string() == b.to_string()
}

/// The command named by the word `w`, if any.
fn command_of_text(w: &str) -> (c: Option<Command>)
    ensures
        c == command_of_word(w@),
{
    if text_eq(w, "Insert") {
        Some(Command::Insert)
    } else if text_eq(w, "Update") {
        Some(Command::Update)
    } else if text_eq(w, "Delete") {
        Some(Command::Delete)
    } else {
        None
    }
}

/// Finds the word that starts at or after `from` in `s`: its start and end.
fn next_word(s: &str, len: usize, from: usize) -> (span: (usize, usize))
    requires
        len == s@.len(),
        from <= len,
    ensures
        span.0 == skip_space(s@, from as int),
        span.1 == word_end(s@, span.0 as int),
        span.0 <= span.1 <= len,
{
    proof {
        crate::text::lemma_skip_space_bounds(s@, from as int);
    }
    let start = skip_space_exec(s, len, from);
    let end = word_end_exec(s, len, start);
    proof {
        crate::text::lemma_word_end_bounds(s@, start as int);
    }
    (start, end)
}

impl Operation {
    /// Reads an operation from its text, given as UTF-8 bytes.
    pub fn new(raw_data: &Vec<u8>) -> (r: Result<Operation, String>)
        requires
            valid_utf8(raw_data@),
        ensures
            match parse_operation(decode_utf8(raw_data@)) {
                Ok(v) => r matches Ok(op) && op@ == v,
                Err(m) => r matches Err(e) && e@ == m,
            },
    {
        let mut bytes: Vec<u8> = Vec::new();
        let mut i: usize = 0;
        while i < raw_data.len()
            invariant
                i <= raw_data@.len(),
                bytes@ == raw_data@.take(i as int),
            decreases raw_data@.len() - i,
        {
            bytes.push(raw_data[i]);
            proof {
                assert(bytes@ =~= raw_data@.take(i + 1));
            }
            i = i + 1;
        }
        proof {
            assert(bytes@ =~= raw_data@);
        }
        let data = match string_from_utf8(bytes) {
            Some(d) => d,
            None => unreached(),
        };
        let s = data.as_str();
        let len = s.unicode_len();
        let ghost t = s@;
        if count_char_exec(s, len, ' ') != 2 {
            return Err("Invalid number of arguments".to_string());
        }
        proof {
            crate::text::lemma_skip_space_bounds(t, 0);
        }
        let (start0, end0) = next_word(s, len, 0);
        assert(start0 == word_start(t, 0));
        if start0 >= len {
            return Err("Invalid command".to_string());
        }
        let command = match command_of_text(s.substring_char(start0, end0)) {
            Some(c) => c,
            None => {
                return Err("Invalid command".to_string());
            },
        };
        let (start1, end1) = next_word(s, len, end0);
        assert(start1 == word_start(t, 1));
        if start1 >= len {
            return Err("Invalid key".to_string());
        }
        let key = s.substring_char(start1, end1).to_string();
        let (start2, end2) = next_word(s, len, end1);
        assert(start2 == word_start(t, 2));
        if start2 >= len {
            return Err("Invalid value".to_string());
        }
        let value = s.substring_char(start2, end2).to_string();
        Ok(Operation { command, key, value })
    }

    /// The text of this operation as UTF-8 bytes.
    pub fn serialize_as_raw(&self) -> (raw: Vec<u8>)
        ensures
            raw@ == encode_utf8(operation_text(self@)),
    {
        let mut result = match self.command {
            Command::Insert => "Insert".to_string(),
            Command::Update => "Update".to_string(),
            Command::Delete => "Delete".to_string(),
        };
        result.append(" ");
        result.append(self.key.as_str());
        result.append(" ");
        result.append(self.value.as_str());
        result.as_str().as_bytes_vec()
    }
}

/// Reading the text of an operation whose key and value are words gives the
/// operation back; so does reading its UTF-8 encoding, which is valid.
pub proof fn lemma_parse_inverts_text(op: OperationView)
    requires
        is_word(op.key),
        is_word(op.value),
    ensures
        parse_operation(operation_text(op)) == Ok::<OperationView, Seq<char>>(op),
        valid_utf8(encode_utf8(operation_text(op))),
        parse_operation(decode_utf8(encode_utf8(operation_text(op)))) == Ok::<
            OperationView,
            Seq<char>,
        >(op),
{
    reveal_strlit("Insert");
    reveal_strlit("Update");
    reveal_strlit("Delete");
    reveal_strlit(" ");
    let n = command_name(op.command);
    let k = op.key;
    let v = op.value;
    let sp: Seq<char> = " "@;
    let s = operation_text(op);
    let a = n.len() as int;
    let b = a + 1 + k.len();
    let c = b + 1 + v.len();
    assert(s =~= n + sp + k + sp + v);
    assert(s.len() == c);
    assert forall|i: int| 0 <= i < n.len() implies !is_whitespace(#[trigger] n[i]) by {}
    // Two spaces.
    lemma_count_space_in_word(n);
    lemma_count_space_in_word(k);
    lemma_count_space_in_word(v);
    assert(count_char(sp, ' ') == 1) by {
        assert(sp.len() == 1 && sp[0] == ' ');
        assert(sp.drop_last() =~= Seq::<char>::empty());
        assert(count_char(sp.drop_last(), ' ') == 0);
        assert(sp.last() == ' ');
    }
    lemma_count_char_concat(n, sp, ' ');
    lemma_count_char_concat(n + sp, k, ' ');
    lemma_count_char_concat(n + sp + k, sp, ' ');
    lemma_count_char_concat(n + sp + k + sp, v, ' ');
    // The three words.
    assert(s[a] == ' ' && s[b] == ' ');
    assert forall|i: int| 0 <= i < a implies !is_whitespace(#[trigger] s[i]) by {
        assert(s[i] == n[i]);
    }
    assert forall|i: int| a + 1 <= i < b implies !is_whitespace(#[trigger] s[i]) by {
        assert(s[i] == k[i - a - 1]);
    }
    assert forall|i: int| b + 1 <= i < c implies !is_whitespace(#[trigger] s[i]) by {
        assert(s[i] == v[i - b - 1]);
    }
    assert(!is_whitespace(s[0]));
    assert(word_start(s, 0) == 0);
    lemma_word_end_run(s, 0, a);
    assert(!is_whitespace(s[a + 1]));
    assert(skip_space(s, a + 1) == a + 1);
    assert(word_start(s, 1) == a + 1);
    lemma_word_end_run(s, a + 1, b);
    assert(!is_whitespace(s[b + 1]));
    assert(skip_space(s, b + 1) == b + 1);
    assert(word_start(s, 2) == b + 1);
    lemma_word_end_run(s, b + 1, c);
    assert(s.subrange(0, a) =~= n);
    assert(s.subrange(a + 1, b) =~= k);
    assert(s.subrange(b + 1, c) =~= v);
    assert(command_of_word(n) == Some(op.command));
    vstd::utf8::encode_utf8_valid_utf8(s);
    vstd::utf8::encode_utf8_decode_utf8(s);
}

} // verus!
