//! The command line of a node: what a line asks for, and what is said about
//! what came of it.

use crate::close_nodes::{Key, NodeId, ID_BYTES};
use crate::text;
use crate::text::number;
use vstd::prelude::*;

verus! {

/// The texts of some strings.
pub open spec fn texts(strings: Seq<String>) -> Seq<Seq<char>> {
    strings.map_values(|string: String| string@)
}

/// Whether a character is white space, as Unicode has it.
pub open spec fn is_white(character: char) -> bool {
    ||| '\u{9}' <= character <= '\u{d}'
    ||| character == ' '
    ||| character == '\u{85}'
    ||| character == '\u{a0}'
    ||| character == '\u{1680}'
    ||| '\u{2000}' <= character <= '\u{200a}'
    ||| character == '\u{2028}'
    ||| character == '\u{2029}'
    ||| character == '\u{202f}'
    ||| character == '\u{205f}'
    ||| character == '\u{3000}'
}

/// `char::is_whitespace`: whether a character has Unicode's property
/// `White_Space`.
#[verifier::external_body]
fn white(character: char) -> (white: bool)
    ensures
        white == is_white(character),
{
    character.is_whitespace()
}

/// How many characters there are before the first white space.
pub open spec fn word_len(text: Seq<char>) -> nat
    decreases text.len(),
{
    if text.len() == 0 || is_white(text[0]) {
        0
    } else {
        1 + word_len(text.skip(1))
    }
}

/// The words of a line: what stands between its white space.
pub open spec fn words(line: Seq<char>) -> Seq<Seq<char>>
    decreases line.len(),
{
    if line.len() == 0 {
        Seq::empty()
    } else if word_len(line) == 0 {
        words(line.skip(1))
    } else {
        proof {
            lemma_word_fits(line);
        }
        seq![line.take(word_len(line) as int)] + words(line.skip(word_len(line) as int))
    }
}

/// A word is no longer than the text that it is in.
pub proof fn lemma_word_fits(text: Seq<char>)
    ensures
        word_len(text) <= text.len(),
    decreases text.len(),
{
    if text.len() > 0 {
        lemma_word_fits(text.skip(1));
    }
}

proof fn lemma_word_len(text: Seq<char>, len: int)
    requires
        0 <= len <= text.len(),
        forall|i: int| 0 <= i < len ==> !is_white(#[trigger] text[i]),
        len == text.len() || is_white(text[len]),
    ensures
        word_len(text) == len,
    decreases len,
{
    if len > 0 {
        let rest = text.skip(1);
        assert(!is_white(text[0]));
        assert forall|i: int| 0 <= i < len - 1 implies !is_white(#[trigger] rest[i]) by {
            assert(rest[i] == text[i + 1]);
        }
        lemma_word_len(rest, len - 1);
    }
}

/// The words of a line.
fn split_words(line: &str) -> (out: Vec<String>)
    ensures
        texts(out@) == words(line@),
{
    let mut out: Vec<String> = Vec::new();
    let len: usize = line.unicode_len();
    let mut start: usize = 0;
    assert(line@.skip(0) =~= line@);
    assert(texts(out@) + words(line@) =~= words(line@));
    while start < len
        invariant
            start <= len == line@.len(),
            texts(out@) + words(line@.skip(start as int)) == words(line@),
        decreases len - start,
    {
        let ghost text = line@.skip(start as int);
        let mut end: usize = start;
        while end < len && !white(line.get_char(end))
            invariant
                start <= end <= len == line@.len(),
                text == line@.skip(start as int),
                forall|i: int| 0 <= i < end - start ==> !is_white(#[trigger] text[i]),
            ensures
                end == len || is_white(line@[end as int]),
            decreases len - end,
        {
            end = end + 1;
        }
        proof {
            lemma_word_len(text, end - start);
        }
        if end == start {
            start = start + 1;
            assert(text.skip(1) =~= line@.skip(start as int));
        } else {
            let ghost before = texts(out@);
            let word: String = line.substring_char(start, end).to_owned();
            out.push(word);
            proof {
                assert(word@ =~= text.take(end - start));
                assert(text.skip(end - start) =~= line@.skip(end as int));
                assert(texts(out@) =~= before.push(word@));
                assert(texts(out@) + words(line@.skip(end as int)) =~= before + words(text));
            }
            start = end;
        }
    }
    assert(line@.skip(start as int).len() == 0);
    assert(texts(out@) =~= words(line@));
    out
}

/// What a line asks for.
pub enum Command {
    /// Nothing at all.
    Nothing,
    /// To ping a node.
    Ping { address: String },
    /// To store a file.
    Put { filename: String },
    /// To find a value and show it.
    Get { key: String },
    /// To find a value and put it into a file.
    GetInto { key: String, filename: String },
    ShowRoutingTable,
    ShowDatastore,
    Help,
    Exit,
    /// Something else.
    Unknown,
}

/// Whether `words` are the one word `only`.
pub open spec fn one_word(words: Seq<Seq<char>>, only: Seq<char>) -> bool {
    words.len() == 1 && words[0] == only
}

/// Whether `words` are `first` and `second`.
pub open spec fn two_words(words: Seq<Seq<char>>, first: Seq<char>, second: Seq<char>) -> bool {
    words.len() == 2 && words[0] == first && words[1] == second
}

/// Whether `words` are some command.
pub open spec fn is_known(words: Seq<Seq<char>>) -> bool {
    ||| words.len() == 2 && words[0] == "ping"@
    ||| words.len() == 2 && words[0] == "put"@
    ||| words.len() == 2 && words[0] == "get"@
    ||| words.len() == 3 && words[0] == "get"@
    ||| two_words(words, "show"@, "rt"@)
    ||| two_words(words, "show"@, "ds"@)
    ||| one_word(words, "help"@)
    ||| one_word(words, "exit"@)
}

/// Whether `words` ask for `command`.
pub open spec fn asks_for(words: Seq<Seq<char>>, command: Command) -> bool {
    match command {
        Command::Nothing => words.len() == 0,
        Command::Ping { address } => two_words(words, "ping"@, address@),
        Command::Put { filename } => two_words(words, "put"@, filename@),
        Command::Get { key } => two_words(words, "get"@, key@),
        Command::GetInto { key, filename } => words.len() == 3 && words[0] == "get"@ && words[1]
            == key@ && words[2] == filename@,
        Command::ShowRoutingTable => two_words(words, "show"@, "rt"@),
        Command::ShowDatastore => two_words(words, "show"@, "ds"@),
        Command::Help => one_word(words, "help"@),
        Command::Exit => one_word(words, "exit"@),
        Command::Unknown => words.len() > 0 && !is_known(words),
    }
}

/// Whether a word is `text`.
fn is_word(word: &String, text: &str) -> (is: bool)
    ensures
        is == (word@ == text@),
{
    let text: String = text.to_owned();
    *word == text
}

/// What some words ask for.
pub fn command(words: &Vec<String>) -> (command: Command)
    ensures
        asks_for(texts(words@), command),
{
    if words.len() == 0 {
        return Command::Nothing;
    }
    proof {
        reveal_strlit("ping");
        reveal_strlit("put");
        reveal_strlit("get");
        reveal_strlit("show");
        assert("ping"@.len() == 4 && "show"@.len() == 4);
        assert("put"@.len() == 3 && "get"@.len() == 3);
        assert("ping"@[0] == 'p' && "show"@[0] == 's');
        assert("put"@[0] == 'p' && "get"@[0] == 'g');
        reveal_strlit("rt");
        reveal_strlit("ds");
        assert("rt"@[0] == 'r' && "ds"@[0] == 'd');
        assert(texts(words@).len() == words@.len());
        assert forall|i: int| 0 <= i < words@.len() implies #[trigger] texts(words@)[i]
            == words@[i]@ by {}
    }
    if words.len() == 1 {
        if is_word(&words[0], "help") {
            return Command::Help;
        }
        if is_word(&words[0], "exit") {
            return Command::Exit;
        }
    } else if words.len() == 2 {
        if is_word(&words[0], "ping") {
            return Command::Ping { address: words[1].clone() };
        }
        if is_word(&words[0], "put") {
            return Command::Put { filename: words[1].clone() };
        }
        if is_word(&words[0], "get") {
            return Command::Get { key: words[1].clone() };
        }
        if is_word(&words[0], "show") {
            if is_word(&words[1], "rt") {
                return Command::ShowRoutingTable;
            }
            if is_word(&words[1], "ds") {
                return Command::ShowDatastore;
            }
        }
    } else if words.len() == 3 {
        if is_word(&words[0], "get") {
            return Command::GetInto { key: words[1].clone(), filename: words[2].clone() };
        }
    }
    Command::Unknown
}

/// What a line asks for.
pub fn parse_command(line: &str) -> (asked: Command)
    ensures
        asks_for(words(line@), asked),
{
    command(&split_words(line))
}

/// A hexadecimal digit.
pub open spec fn hex_digit(value: int) -> char {
    if value < 10 {
        (('0' as int) + value) as char
    } else {
        (('a' as int) + (value - 10)) as char
    }
}

/// Bytes in hexadecimal, two digits for each.
pub open spec fn hex_text(bytes: Seq<u8>) -> Seq<char> {
    Seq::new(
        2 * bytes.len(),
        |i: int|
            if i % 2 == 0 {
                hex_digit(bytes[i / 2] as int / 16)
            } else {
                hex_digit(bytes[i / 2] as int % 16)
            },
    )
}

/// What a hexadecimal digit stands for.
pub open spec fn hex_value(digit: char) -> Option<int> {
    if '0' <= digit <= '9' {
        Some(digit as int - '0' as int)
    } else if 'a' <= digit <= 'f' {
        Some(digit as int - 'a' as int + 10)
    } else if 'A' <= digit <= 'F' {
        Some(digit as int - 'A' as int + 10)
    } else {
        None
    }
}

/// Whether a text is bytes in hexadecimal.
pub open spec fn is_hex(text: Seq<char>) -> bool {
    &&& text.len() % 2 == 0
    &&& forall|i: int| 0 <= i < text.len() ==> hex_value(#[trigger] text[i]) is Some
}

/// The bytes that a text is in hexadecimal.
pub open spec fn hex_bytes(text: Seq<char>) -> Seq<u8> {
    Seq::new(
        text.len() / 2,
        |i: int| (16 * hex_value(text[2 * i])->0 + hex_value(text[2 * i + 1])->0) as u8,
    )
}

/// `hex::encode`: bytes in hexadecimal, in lower case.
#[verifier::external_body]
fn encode_hex(bytes: &[u8]) -> (text: String)
    ensures
        text@ == hex_text(bytes@),
{
    hex::encode(bytes)
}

/// `hex::decode`: the bytes that a text is in hexadecimal, in either case, and
/// nothing if it is not.
#[verifier::external_body]
fn decode_hex(text: &str) -> (bytes: Option<Vec<u8>>)
    ensures
        bytes is Some <==> is_hex(text@),
        bytes matches Some(bytes) ==> bytes@ == hex_bytes(text@),
{
    hex::decode(text).ok()
}

/// What is in hexadecimal comes back out of it.
pub proof fn lemma_hex_round_trips(bytes: Seq<u8>)
    ensures
        is_hex(hex_text(bytes)),
        hex_bytes(hex_text(bytes)) == bytes,
{
    let text = hex_text(bytes);
    assert forall|value: int| 0 <= value < 16 implies hex_value(#[trigger] hex_digit(value))
        == Some(value) by {}
    assert forall|i: int| 0 <= i < text.len() implies hex_value(#[trigger] text[i]) is Some by {
        let byte = bytes[i / 2] as int;
        assert(0 <= byte / 16 < 16 && 0 <= byte % 16 < 16);
    }
    assert forall|i: int| 0 <= i < bytes.len() implies #[trigger] hex_bytes(text)[i] == bytes[i] by {
        let byte = bytes[i] as int;
        assert(0 <= byte / 16 < 16 && 0 <= byte % 16 < 16);
        assert(text[2 * i] == hex_digit(byte / 16));
        assert(text[2 * i + 1] == hex_digit(byte % 16));
    }
    assert(hex_bytes(text) =~= bytes);
}

/// An id as it is shown: in hexadecimal, and all but both ends left out if it
/// is long.
pub open spec fn short_text(id: Seq<u8>) -> Seq<char> {
    let text = hex_text(id);
    if text.len() <= 8 {
        text
    } else {
        text.take(4) + "…"@ + text.skip(text.len() - 4)
    }
}

/// An id, short enough to look at.
pub fn short_id(id: &[u8]) -> (text: String)
    ensures
        text@ == short_text(id@),
{
    let encoded: String = encode_hex(id);
    let len: usize = encoded.as_str().unicode_len();
    if len <= 8 {
        return encoded;
    }
    let mut text: String = encoded.as_str().substring_char(0, 4).to_owned();
    text.append("…");
    text.append(encoded.as_str().substring_char(len - 4, len));
    assert(text@ =~= short_text(id@));
    text
}

/// Why a text is no key.
#[derive(Clone, Copy, Debug, PartialEq, Eq, Structural)]
pub enum KeyError {
    NotHexadecimal,
    WrongLength,
}

impl KeyError {
    /// What is said about it.
    pub fn message(self) -> (message: &'static str)
        ensures
            message@ == match self {
                KeyError::NotHexadecimal => "key must be hexadecimal"@,
                KeyError::WrongLength => "key must contain exactly 64 hexadecimal characters"@,
            },
    {
        match self {
            KeyError::NotHexadecimal => "key must be hexadecimal",
            KeyError::WrongLength => "key must contain exactly 64 hexadecimal characters",
        }
    }
}

/// The key that a text is in hexadecimal.
pub fn parse_key(input: &str) -> (key: Result<Key, KeyError>)
    ensures
        match key {
            Ok(key) => is_hex(input@) && key@ == hex_bytes(input@),
            Err(KeyError::NotHexadecimal) => !is_hex(input@),
            Err(KeyError::WrongLength) => is_hex(input@) && input@.len() != 64,
        },
        is_hex(input@) && input@.len() == 64 ==> key is Ok,
{
    match decode_hex(input) {
        Some(bytes) => {
            if bytes.len() != ID_BYTES {
                return Err(KeyError::WrongLength);
            }
            let mut key: Key = [0u8; ID_BYTES];
            let mut i: usize = 0;
            while i < ID_BYTES
                invariant
                    i <= 32,
                    bytes@.len() == 32,
                    forall|j: int| 0 <= j < i ==> key@[j] == bytes@[j],
                decreases 32 - i,
            {
                key[i] = bytes[i];
                i = i + 1;
            }
            assert(key@ =~= bytes@);
            Ok(key)
        },
        None => Err(KeyError::NotHexadecimal),
    }
}

/// A node as it is shown: its id, and its address as text.
pub struct Shown {
    pub id: NodeId,
    pub address: String,
}

/// A node on a line of its own, behind `indent`.
pub open spec fn node_line(indent: Seq<char>, id: Seq<u8>, address: Seq<char>) -> Seq<char> {
    indent + short_text(id) + "  "@ + address
}

fn show_node(indent: &str, node: &Shown) -> (line: String)
    ensures
        line@ == node_line(indent@, node.id@, node.address@),
{
    let mut line: String = indent.to_owned();
    let id: String = short_id(node.id.as_slice());
    line.append(id.as_str());
    line.append("  ");
    line.append(node.address.as_str());
    line
}

/// Nodes, one on a line.
pub open spec fn node_lines(indent: Seq<char>, nodes: Seq<Shown>) -> Seq<Seq<char>> {
    nodes.map_values(|node: Shown| node_line(indent, node.id@, node.address@))
}

/// Buckets, with their nodes below each.
pub open spec fn bucket_lines(buckets: Seq<(usize, Vec<Shown>)>) -> Seq<Seq<char>>
    decreases buckets.len(),
{
    if buckets.len() == 0 {
        Seq::empty()
    } else {
        bucket_lines(buckets.drop_last()) + seq![
            "  bucket "@ + text::number_text(buckets.last().0 as nat) + ":"@,
        ] + node_lines("    "@, buckets.last().1@)
    }
}

/// What is said about a routing table.
pub open spec fn routing_table_lines(
    siblings: Seq<Shown>,
    buckets: Seq<(usize, Vec<Shown>)>,
) -> Seq<Seq<char>> {
    seq!["siblings:"@] + if siblings.len() == 0 {
        seq!["  <empty>"@]
    } else {
        node_lines("  "@, siblings)
    } + seq!["buckets:"@] + if buckets.len() == 0 {
        seq!["  <empty>"@]
    } else {
        bucket_lines(buckets)
    }
}

fn add_nodes(lines: &mut Vec<String>, indent: &str, nodes: &Vec<Shown>)
    ensures
        texts(final(lines)@) == texts(old(lines)@) + node_lines(indent@, nodes@),
{
    let mut i: usize = 0;
    assert(texts(lines@) =~= texts(old(lines)@) + node_lines(indent@, nodes@.take(0)));
    while i < nodes.len()
        invariant
            i <= nodes@.len(),
            texts(lines@) == texts(old(lines)@) + node_lines(indent@, nodes@.take(i as int)),
        decreases nodes.len() - i,
    {
        let line: String = show_node(indent, &nodes[i]);
        let ghost before = lines@;
        lines.push(line);
        i = i + 1;
        assert(texts(lines@) =~= texts(before).push(line@));
        assert(node_lines(indent@, nodes@.take(i as int)) =~= node_lines(
            indent@,
            nodes@.take(i - 1),
        ).push(node_line(indent@, nodes@[i - 1].id@, nodes@[i - 1].address@)));
        assert(texts(lines@) =~= texts(old(lines)@) + node_lines(indent@, nodes@.take(i as int)));
    }
    assert(nodes@.take(i as int) =~= nodes@);
}

fn add_line(lines: &mut Vec<String>, line: &str)
    ensures
        texts(final(lines)@) == texts(old(lines)@).push(line@),
{
    lines.push(line.to_owned());
    assert(texts(lines@) =~= texts(old(lines)@).push(line@));
}

/// What to say about a routing table: its siblings, and the buckets that hold
/// anything.
pub fn show_routing_table(siblings: &Vec<Shown>, buckets: &Vec<(usize, Vec<Shown>)>) -> (lines:
    Vec<String>)
    ensures
        texts(lines@) == routing_table_lines(siblings@, buckets@),
{
    let mut lines: Vec<String> = Vec::new();
    add_line(&mut lines, "siblings:");
    if siblings.len() == 0 {
        add_line(&mut lines, "  <empty>");
    } else {
        add_nodes(&mut lines, "  ", siblings);
    }
    add_line(&mut lines, "buckets:");
    let ghost head = texts(lines@);
    if buckets.len() == 0 {
        add_line(&mut lines, "  <empty>");
    } else {
        let mut i: usize = 0;
        assert(head + bucket_lines(buckets@.take(0)) =~= head);
        while i < buckets.len()
            invariant
                i <= buckets@.len(),
                texts(lines@) == head + bucket_lines(buckets@.take(i as int)),
            decreases buckets.len() - i,
        {
            let mut title: String = "  bucket ".to_owned();
            let index: String = number(buckets[i].0);
            title.append(index.as_str());
            title.append(":");
            add_line(&mut lines, title.as_str());
            add_nodes(&mut lines, "    ", &buckets[i].1);
            i = i + 1;
            assert(buckets@.take(i as int).drop_last() =~= buckets@.take(i - 1));
            assert(texts(lines@) =~= head + bucket_lines(buckets@.take(i as int)));
        }
        assert(buckets@.take(i as int) =~= buckets@);
    }
    assert(texts(lines@) =~= routing_table_lines(siblings@, buckets@));
    lines
}

/// What is said about what is stored.
pub open spec fn datastore_lines(values: Seq<(Key, usize)>) -> Seq<Seq<char>> {
    if values.len() == 0 {
        seq!["<empty>"@]
    } else {
        values.map_values(
            |value: (Key, usize)|
                short_text(value.0@) + "  "@ + text::number_text(value.1 as nat) + " bytes"@,
        )
    }
}

/// What to say about what is stored: each key, and the size of its value.
pub fn show_datastore(values: &Vec<(Key, usize)>) -> (lines: Vec<String>)
    ensures
        texts(lines@) == datastore_lines(values@),
{
    let mut lines: Vec<String> = Vec::new();
    if values.len() == 0 {
        add_line(&mut lines, "<empty>");
        assert(texts(lines@) =~= datastore_lines(values@));
        return lines;
    }
    let mut i: usize = 0;
    while i < values.len()
        invariant
            0 < values@.len(),
            i <= values@.len(),
            texts(lines@) =~= datastore_lines(values@).take(i as int),
        decreases values.len() - i,
    {
        let mut line: String = short_id(values[i].0.as_slice());
        line.append("  ");
        let size: String = number(values[i].1);
        line.append(size.as_str());
        line.append(" bytes");
        add_line(&mut lines, line.as_str());
        i = i + 1;
        assert(datastore_lines(values@).take(i as int) =~= datastore_lines(values@).take(
            i - 1,
        ).push(line@));
    }
    assert(texts(lines@) =~= datastore_lines(values@));
    lines
}

/// What to say about the commands there are.
pub fn help() -> (lines: Vec<String>)
    ensures
        texts(lines@) == seq![
            "commands:"@,
            "  ping IP:PORT"@,
            "  put FILENAME"@,
            "  get KEY [FILENAME]"@,
            "  show rt"@,
            "  show ds"@,
            "  help"@,
            "  exit"@,
        ],
{
    let mut lines: Vec<String> = Vec::new();
    add_line(&mut lines, "commands:");
    add_line(&mut lines, "  ping IP:PORT");
    add_line(&mut lines, "  put FILENAME");
    add_line(&mut lines, "  get KEY [FILENAME]");
    add_line(&mut lines, "  show rt");
    add_line(&mut lines, "  show ds");
    add_line(&mut lines, "  help");
    add_line(&mut lines, "  exit");
    assert(texts(lines@) =~= seq![
        "commands:"@,
        "  ping IP:PORT"@,
        "  put FILENAME"@,
        "  get KEY [FILENAME]"@,
        "  show rt"@,
        "  show ds"@,
        "  help"@,
        "  exit"@,
    ]);
    lines
}

/// What to say about a node that answered a ping after `elapsed`.
pub fn pong(address: &str, id: &NodeId, elapsed: &str) -> (line: String)
    ensures
        line@ == "pong from "@ + address@ + " ("@ + short_text(id@) + ") in "@ + elapsed@,
{
    let mut line: String = "pong from ".to_owned();
    line.append(address);
    line.append(" (");
    let id: String = short_id(id.as_slice());
    line.append(id.as_str());
    line.append(") in ");
    line.append(elapsed);
    line
}

/// What to say about a node that did not answer a ping.
pub fn no_response(address: &str) -> (line: String)
    ensures
        line@ == "no response from "@ + address@,
{
    let mut line: String = "no response from ".to_owned();
    line.append(address);
    line
}

/// What to say about a value that was stored: PUT must print the complete key,
/// not the abbreviated debugging representation.
pub fn stored(size: usize, key: &Key) -> (line: String)
    ensures
        line@ == "stored "@ + text::number_text(size as nat) + " bytes as "@ + hex_text(key@),
{
    let mut line: String = "stored ".to_owned();
    let size: String = number(size);
    line.append(size.as_str());
    line.append(" bytes as ");
    let key: String = encode_hex(key.as_slice());
    line.append(key.as_str());
    line
}

/// What to say about a value that was found.
pub fn received(size: usize, address: &str, id: &NodeId) -> (line: String)
    ensures
        line@ == "received "@ + text::number_text(size as nat) + " bytes from "@ + address@ + " ("@
            + short_text(id@) + ")"@,
{
    let mut line: String = "received ".to_owned();
    let size: String = number(size);
    line.append(size.as_str());
    line.append(" bytes from ");
    line.append(address);
    line.append(" (");
    let id: String = short_id(id.as_slice());
    line.append(id.as_str());
    line.append(")");
    line
}

/// What to say about a value that was found and put into a file.
pub fn received_into(size: usize, address: &str, id: &NodeId, filename: &str) -> (line: String)
    ensures
        line@ == "received "@ + text::number_text(size as nat) + " bytes from "@ + address@ + " ("@
            + short_text(id@) + ")"@ + " and wrote "@ + filename@,
{
    let mut line: String = received(size, address, id);
    line.append(" and wrote ");
    line.append(filename);
    line
}

/// What to say about a file that could not be read or written, `what` being
/// which of the two.
pub fn file_trouble(what: &str, filename: &str, error: &str) -> (line: String)
    ensures
        line@ == "could not "@ + what@ + " "@ + filename@ + ": "@ + error@,
{
    let mut line: String = "could not ".to_owned();
    line.append(what);
    line.append(" ");
    line.append(filename);
    line.append(": ");
    line.append(error);
    line
}

/// `std::str::from_utf8`, as a string: the text that some bytes encode, and
/// nothing if they encode none.
#[verifier::external_body]
fn decode_text(value: &[u8]) -> (text: Option<String>)
    ensures
        text is Some <==> vstd::utf8::valid_utf8(value@),
        text matches Some(text) ==> vstd::utf8::encode_utf8(text@) == value@,
{
    std::str::from_utf8(value).ok().map(|text| text.to_string())
}

/// A value as it is shown: as the text that it is, or else in hexadecimal.
pub fn show_value(value: &[u8]) -> (line: String)
    ensures
        vstd::utf8::valid_utf8(value@) ==> line@ == vstd::utf8::decode_utf8(value@),
        !vstd::utf8::valid_utf8(value@) ==> line@ == "binary value (hex): "@ + hex_text(value@),
{
    match decode_text(value) {
        Some(text) => {
            proof {
                vstd::utf8::encode_utf8_decode_utf8(text@);
            }
            text
        },
        None => {
            let mut line: String = "binary value (hex): ".to_owned();
            let text: String = encode_hex(value);
            line.append(text.as_str());
            line
        },
    }
}

/// A text without white space is one word, however long it is.
pub proof fn lemma_a_word_is_whole(text: Seq<char>)
    requires
        text.len() > 0,
        forall|i: int| 0 <= i < text.len() ==> !is_white(#[trigger] text[i]),
    ensures
        words(text) == seq![text],
{
    lemma_word_len(text, text.len() as int);
    assert(text.take(text.len() as int) =~= text);
    assert(text.skip(text.len() as int).len() == 0);
    reveal_with_fuel(words, 2);
    assert(words(text) =~= seq![text]);
}

/// White space parts words, wherever it stands: the words of a line are those
/// on its one side and then those on its other.
pub proof fn lemma_white_space_parts_words(a: Seq<char>, white: char, b: Seq<char>)
    requires
        is_white(white),
    ensures
        words(a.push(white) + b) == words(a) + words(b),
    decreases a.len(),
{
    let line = a.push(white) + b;
    if a.len() == 0 {
        assert(line[0] == white);
        assert(line.skip(1) =~= b);
        assert(words(a) + words(b) =~= words(b));
    } else {
        lemma_word_fits(a);
        let len = word_len(a) as int;
        lemma_word_ends(a);
        assert forall|i: int| 0 <= i < len implies !is_white(#[trigger] line[i]) by {
            assert(line[i] == a[i]);
        }
        assert(line[len] == if len < a.len() {
            a[len]
        } else {
            white
        });
        lemma_word_len(line, len);
        let by = if len == 0 {
            1
        } else {
            len
        };
        assert(line.skip(by) =~= a.skip(by).push(white) + b);
        lemma_white_space_parts_words(a.skip(by), white, b);
        if len > 0 {
            assert(line.take(len) =~= a.take(len));
            assert(words(line) =~= words(a) + words(b));
        }
    }
}

/// A word goes on up to the first white space.
proof fn lemma_word_ends(text: Seq<char>)
    ensures
        word_len(text) <= text.len(),
        forall|i: int| 0 <= i < word_len(text) ==> !is_white(#[trigger] text[i]),
        word_len(text) < text.len() ==> is_white(text[word_len(text) as int]),
    decreases text.len(),
{
    if text.len() > 0 && !is_white(text[0]) {
        let rest = text.skip(1);
        lemma_word_ends(rest);
        assert forall|i: int| 0 <= i < word_len(text) implies !is_white(#[trigger] text[i]) by {
            if i > 0 {
                assert(text[i] == rest[i - 1]);
            }
        }
    }
}

/// Splitting a line loses nothing but white space: its words put together are
/// its characters that are not white space. No word is empty, and none has
/// white space in it.
pub proof fn lemma_words_are_all_but_the_white_space(line: Seq<char>)
    ensures
        words(line).flatten() == line.filter(|character: char| !is_white(character)),
        forall|n: int| 0 <= n < words(line).len() ==> (#[trigger] words(line)[n]).len() > 0,
        forall|n: int, i: int|
            0 <= n < words(line).len() && 0 <= i < words(line)[n].len() ==> !is_white(
                #[trigger] words(line)[n][i],
            ),
    decreases line.len(),
{
    let solid = |character: char| !is_white(character);
    if line.len() == 0 {
        reveal(Seq::filter);
        assert(words(line).flatten() =~= line.filter(solid));
    } else {
        lemma_word_ends(line);
        let len = word_len(line) as int;
        let by = if len == 0 {
            1
        } else {
            len
        };
        let front = line.take(by);
        let rest = line.skip(by);
        lemma_words_are_all_but_the_white_space(rest);
        assert(front + rest =~= line);
        Seq::filter_distributes_over_add(front, rest, solid);
        if len == 0 {
            assert(front =~= seq![line[0]]);
            front.lemma_all_neg_filter_empty(solid);
            assert(front.filter(solid) =~= Seq::empty());
            assert(Seq::<char>::empty() + rest.filter(solid) =~= rest.filter(solid));
        } else {
            lemma_all_solid(front);
            let all = words(line);
            assert(all =~= seq![front] + words(rest));
            assert(all.first() == front);
            assert(all.drop_first() =~= words(rest));
            assert forall|n: int| 0 <= n < all.len() implies (#[trigger] all[n]).len() > 0 by {
                if n > 0 {
                    assert(all[n] == words(rest)[n - 1]);
                }
            }
            assert forall|n: int, i: int|
                0 <= n < all.len() && 0 <= i < all[n].len() implies !is_white(
                #[trigger] all[n][i],
            ) by {
                if n > 0 {
                    assert(all[n] == words(rest)[n - 1]);
                } else {
                    assert(all[n][i] == line[i]);
                }
            }
        }
    }
}

proof fn lemma_all_solid(text: Seq<char>)
    requires
        forall|i: int| 0 <= i < text.len() ==> !is_white(#[trigger] text[i]),
    ensures
        text.filter(|character: char| !is_white(character)) == text,
    decreases text.len(),
{
    reveal(Seq::filter);
    if text.len() > 0 {
        let fewer = text.drop_last();
        assert forall|i: int| 0 <= i < fewer.len() implies !is_white(#[trigger] fewer[i]) by {
            assert(fewer[i] == text[i]);
        }
        lemma_all_solid(fewer);
        assert(!is_white(text[text.len() - 1]));
        assert(fewer.push(text.last()) =~= text);
    }
}

/// What words ask for: each command has its own first word and its own number
/// of words, whatever is behind the first is taken whole and in order, and
/// everything else is unknown.
pub proof fn lemma_commands_are_told_apart(words: Seq<Seq<char>>, command: Command)
    requires
        asks_for(words, command),
    ensures
        words.len() == 0 <==> command is Nothing,
        words.len() == 2 && words[0] == "ping"@ ==> (command matches Command::Ping { address }
            && address@ == words[1]),
        words.len() == 2 && words[0] == "put"@ ==> (command matches Command::Put { filename }
            && filename@ == words[1]),
        words.len() == 2 && words[0] == "get"@ ==> (command matches Command::Get { key } && key@
            == words[1]),
        words.len() == 3 && words[0] == "get"@ ==> (command matches Command::GetInto {
            key,
            filename,
        } && key@ == words[1] && filename@ == words[2]),
        words == seq!["show"@, "rt"@] ==> command is ShowRoutingTable,
        words == seq!["show"@, "ds"@] ==> command is ShowDatastore,
        words == seq!["help"@] ==> command is Help,
        words == seq!["exit"@] ==> command is Exit,
        command is Ping ==> words.len() == 2 && words[0] == "ping"@,
        command is Put ==> words.len() == 2 && words[0] == "put"@,
        command is Get ==> words.len() == 2 && words[0] == "get"@,
        command is GetInto ==> words.len() == 3 && words[0] == "get"@,
        command is ShowRoutingTable ==> words == seq!["show"@, "rt"@],
        command is ShowDatastore ==> words == seq!["show"@, "ds"@],
        command is Help ==> words == seq!["help"@],
        command is Exit ==> words == seq!["exit"@],
{
    reveal_strlit("ping");
    reveal_strlit("put");
    reveal_strlit("get");
    reveal_strlit("show");
    reveal_strlit("rt");
    reveal_strlit("ds");
    reveal_strlit("help");
    reveal_strlit("exit");
    assert("ping"@[0] == 'p' && "ping"@[1] == 'i' && "put"@[1] == 'u');
    assert("show"@[0] == 's' && "get"@[0] == 'g' && "put"@[0] == 'p');
    assert("help"@[0] == 'h' && "exit"@[0] == 'e');
    assert("rt"@[0] == 'r' && "ds"@[0] == 'd');
    match command {
        Command::ShowRoutingTable => assert(words =~= seq!["show"@, "rt"@]),
        Command::ShowDatastore => assert(words =~= seq!["show"@, "ds"@]),
        Command::Help => assert(words =~= seq!["help"@]),
        Command::Exit => assert(words =~= seq!["exit"@]),
        _ => {},
    }
}

/// Whatever is behind `get` on a line, if there is no white space in it, is
/// the key that is asked for, to its last character; and behind `put`, the
/// file.
pub proof fn lemma_a_line_is_taken_at_its_word(text: Seq<char>, command: Command)
    requires
        text.len() > 0,
        forall|i: int| 0 <= i < text.len() ==> !is_white(#[trigger] text[i]),
    ensures
        words("get "@ + text) == seq!["get"@, text],
        words("put "@ + text) == seq!["put"@, text],
        words("ping "@ + text) == seq!["ping"@, text],
        asks_for(words("get "@ + text), command) ==> (command matches Command::Get { key }
            && key@ == text),
        asks_for(words("put "@ + text), command) ==> (command matches Command::Put { filename }
            && filename@ == text),
        asks_for(words("ping "@ + text), command) ==> (command matches Command::Ping { address }
            && address@ == text),
{
    reveal_strlit("get");
    reveal_strlit("get ");
    reveal_strlit("put");
    reveal_strlit("put ");
    reveal_strlit("ping");
    reveal_strlit("ping ");
    assert("get"@.push(' ') =~= "get "@);
    assert("put"@.push(' ') =~= "put "@);
    assert("ping"@.push(' ') =~= "ping "@);
    lemma_a_word_is_whole(text);
    lemma_a_word_is_whole("get"@);
    lemma_a_word_is_whole("put"@);
    lemma_a_word_is_whole("ping"@);
    lemma_white_space_parts_words("get"@, ' ', text);
    lemma_white_space_parts_words("put"@, ' ', text);
    lemma_white_space_parts_words("ping"@, ' ', text);
    assert(words("get "@ + text) =~= seq!["get"@, text]);
    assert(words("put "@ + text) =~= seq!["put"@, text]);
    assert(words("ping "@ + text) =~= seq!["ping"@, text]);
    if asks_for(words("get "@ + text), command) {
        lemma_commands_are_told_apart(words("get "@ + text), command);
    }
    if asks_for(words("put "@ + text), command) {
        lemma_commands_are_told_apart(words("put "@ + text), command);
    }
    if asks_for(words("ping "@ + text), command) {
        lemma_commands_are_told_apart(words("ping "@ + text), command);
    }
}

/// The key that is printed when a value is stored is 64 digits, and asked for
/// with `get`, it is read as that key.
pub proof fn lemma_a_printed_key_can_be_asked_for(key: Key, command: Command)
    requires
        asks_for(words("get "@ + hex_text(key@)), command),
    ensures
        hex_text(key@).len() == 64,
        command matches Command::Get { key: asked } && is_hex(asked@) && hex_bytes(asked@) == key@,
{
    let text = hex_text(key@);
    lemma_hex_round_trips(key@);
    assert forall|i: int| 0 <= i < text.len() implies !is_white(#[trigger] text[i]) by {
        assert(hex_value(text[i]) is Some);
    }
    lemma_a_line_is_taken_at_its_word(text, command);
}

/// An id is shown by both ends of it in hexadecimal, and whole if it is short.
pub proof fn lemma_an_id_is_shown_by_its_ends(id: Seq<u8>)
    ensures
        id.len() <= 4 ==> short_text(id) == hex_text(id),
        id.len() > 4 ==> {
            &&& short_text(id).len() == 9
            &&& short_text(id).take(4) == hex_text(id.take(2))
            &&& short_text(id)[4] == '…'
            &&& short_text(id).skip(5) == hex_text(id.skip(id.len() - 2))
        },
{
    if id.len() > 4 {
        reveal_strlit("…");
        let text = hex_text(id);
        assert(text.take(4) =~= hex_text(id.take(2)));
        let tail = id.skip(id.len() - 2);
        assert forall|i: int| 0 <= i < 4 implies text.skip(text.len() - 4)[i] == hex_text(
            tail,
        )[i] by {
            assert((text.len() - 4 + i) / 2 == id.len() - 2 + i / 2);
            assert((text.len() - 4 + i) % 2 == i % 2);
        }
        assert(text.skip(text.len() - 4) =~= hex_text(tail));
        assert(short_text(id).take(4) =~= text.take(4));
        assert(short_text(id).skip(5) =~= text.skip(text.len() - 4));
    }
}

/// What is said about a routing table names everybody in it: each sibling on
/// a line of its own, in order, then each bucket under its index, and each of
/// its nodes on a line of its own, in order. A table without siblings, or
/// without buckets, is said to be so.
pub proof fn lemma_a_routing_table_is_shown_whole(
    siblings: Seq<Shown>,
    buckets: Seq<(usize, Vec<Shown>)>,
    bucket: (usize, Vec<Shown>),
)
    ensures
        siblings.len() > 0 && buckets.len() > 0 ==> routing_table_lines(siblings, buckets)
            == seq!["siblings:"@] + siblings.map_values(
            |node: Shown| "  "@ + short_text(node.id@) + "  "@ + node.address@,
        ) + seq!["buckets:"@] + bucket_lines(buckets),
        siblings.len() == 0 && buckets.len() > 0 ==> routing_table_lines(siblings, buckets)
            == seq!["siblings:"@, "  <empty>"@, "buckets:"@] + bucket_lines(buckets),
        siblings.len() > 0 && buckets.len() == 0 ==> routing_table_lines(siblings, buckets)
            == seq!["siblings:"@] + siblings.map_values(
            |node: Shown| "  "@ + short_text(node.id@) + "  "@ + node.address@,
        ) + seq!["buckets:"@, "  <empty>"@],
        siblings.len() == 0 && buckets.len() == 0 ==> routing_table_lines(siblings, buckets)
            == seq!["siblings:"@, "  <empty>"@, "buckets:"@, "  <empty>"@],
        bucket_lines(Seq::empty()) == Seq::<Seq<char>>::empty(),
        bucket_lines(buckets.push(bucket)) == bucket_lines(buckets) + seq![
            "  bucket "@ + text::number_text(bucket.0 as nat) + ":"@,
        ] + bucket.1@.map_values(
            |node: Shown| "    "@ + short_text(node.id@) + "  "@ + node.address@,
        ),
{
    let lines = routing_table_lines(siblings, buckets);
    let shown = siblings.map_values(
        |node: Shown| "  "@ + short_text(node.id@) + "  "@ + node.address@,
    );
    assert(node_lines("  "@, siblings) =~= shown);
    if siblings.len() > 0 && buckets.len() == 0 {
        assert(lines =~= seq!["siblings:"@] + shown + seq!["buckets:"@, "  <empty>"@]);
    } else if siblings.len() == 0 && buckets.len() > 0 {
        assert(lines =~= seq!["siblings:"@, "  <empty>"@, "buckets:"@] + bucket_lines(buckets));
    } else if siblings.len() == 0 {
        assert(lines =~= seq!["siblings:"@, "  <empty>"@, "buckets:"@, "  <empty>"@]);
    }
    assert(buckets.push(bucket).drop_last() =~= buckets);
    assert(node_lines("    "@, bucket.1@) =~= bucket.1@.map_values(
        |node: Shown| "    "@ + short_text(node.id@) + "  "@ + node.address@,
    ));
}

/// What is said about what is stored names every value, with its size.
pub proof fn lemma_every_value_is_shown(values: Seq<(Key, usize)>, i: int)
    ensures
        values.len() == 0 ==> datastore_lines(values) == seq!["<empty>"@],
        values.len() > 0 ==> datastore_lines(values).len() == values.len(),
        0 <= i < values.len() ==> datastore_lines(values)[i] == short_text(values[i].0@) + "  "@
            + text::number_text(values[i].1 as nat) + " bytes"@,
{
}

/// The texts of some strings are those strings, one by one.
pub proof fn lemma_texts_are_the_strings(strings: Seq<String>, i: int)
    ensures
        texts(strings).len() == strings.len(),
        0 <= i < strings.len() ==> texts(strings)[i] == strings[i]@,
{
}

} // verus!
