//! The commit codec: header lines `tree`, `parent` (any number), `author`
//! and `committer`, an empty line, and the message.

use super::{canonical, frame, ObjectType};
use crate::digest::{sha1_digest, sha1_of, HASH_LEN};
use crate::text::scan::{
    find_char, free_of, index_of, lemma_free_of_concat, lemma_index_of, lemma_index_of_props,
};
use crate::text::utf8::{as_text, chars_of, spells, substring};
use vstd::prelude::*;
use vstd::slice::slice_subrange;
use vstd::string::*;
use vstd::utf8::*;

verus! {

/// A commit as a mathematical value.
pub struct CommitView {
    pub tree_hash: Seq<char>,
    pub parent_hashes: Seq<Seq<char>>,
    pub author: Seq<char>,
    pub committer: Seq<char>,
    pub message: Seq<char>,
}

/// A header line: key, one space, value, line end.
pub open spec fn field_line(key: Seq<char>, value: Seq<char>) -> Seq<char> {
    key + seq![' '] + value + seq!['\n']
}

/// The `parent` lines of the given parents, in order.
pub open spec fn parent_lines(parents: Seq<Seq<char>>) -> Seq<char>
    decreases parents.len(),
{
    if parents.len() == 0 {
        Seq::empty()
    } else {
        field_line("parent"@, parents[0]) + parent_lines(parents.drop_first())
    }
}

impl CommitView {
    /// The text of the commit: the header lines in their fixed order, an
    /// empty line, the message.
    pub open spec fn text(self) -> Seq<char> {
        field_line("tree"@, self.tree_hash) + parent_lines(self.parent_hashes) + field_line(
            "author"@,
            self.author,
        ) + field_line("committer"@, self.committer) + seq!['\n'] + self.message
    }

    /// The payload of the commit: its text in UTF-8.
    pub open spec fn payload(self) -> Seq<u8> {
        encode_utf8(self.text())
    }

    /// What a commit must satisfy for its payload to decode to itself: no
    /// header value holds a line end.
    pub open spec fn wf(self) -> bool {
        &&& free_of(self.tree_hash, '\n')
        &&& forall|i: int|
            0 <= i < self.parent_hashes.len() ==> free_of(#[trigger] self.parent_hashes[i], '\n')
        &&& free_of(self.author, '\n')
        &&& free_of(self.committer, '\n')
    }
}

/// The first line of `text` and what follows its line end; `None` if `text`
/// holds no line end.
pub open spec fn split_line(text: Seq<char>) -> Option<(Seq<char>, Seq<char>)> {
    let end = index_of(text, '\n') as int;
    if end < text.len() {
        Some((text.take(end), text.skip(end + 1)))
    } else {
        None
    }
}

/// The key and the value of a header line: what stands before its first
/// space, and the remainder of the line behind that space. `None` if the
/// line holds no space.
pub open spec fn split_field(line: Seq<char>) -> Option<(Seq<char>, Seq<char>)> {
    let gap = index_of(line, ' ') as int;
    if gap < line.len() {
        Some((line.take(gap), line.skip(gap + 1)))
    } else {
        None
    }
}

/// If the first line of `text` is a header line with the key `key`: its
/// value, and what follows the line.
pub open spec fn take_field(text: Seq<char>, key: Seq<char>) -> Option<(Seq<char>, Seq<char>)> {
    match split_line(text) {
        Some((line, rest)) => match split_field(line) {
            Some((found, value)) => if found == key {
                Some((value, rest))
            } else {
                None
            },
            None => None,
        },
        None => None,
    }
}

/// The values of the `parent` lines that `text` begins with, and what
/// follows them.
pub open spec fn take_parents(text: Seq<char>) -> (Seq<Seq<char>>, Seq<char>)
    decreases text.len(),
{
    match take_field(text, "parent"@) {
        Some((value, rest)) => {
            let (more, left) = take_parents(rest);
            (seq![value] + more, left)
        },
        None => (Seq::empty(), text),
    }
}

/// The commit that a text denotes: a `tree` line, any number of `parent`
/// lines, an `author` line, a `committer` line, an empty line, and the
/// message, which is all that follows. `None` for any other text.
pub open spec fn parse_commit(text: Seq<char>) -> Option<CommitView> {
    match take_field(text, "tree"@) {
        Some((tree_hash, after_tree)) => {
            let (parent_hashes, after_parents) = take_parents(after_tree);
            match take_field(after_parents, "author"@) {
                Some((author, after_author)) => match take_field(after_author, "committer"@) {
                    Some((committer, after_committer)) => match split_line(after_committer) {
                        Some((line, message)) => if line.len() == 0 {
                            Some(
                                CommitView { tree_hash, parent_hashes, author, committer, message },
                            )
                        } else {
                            None
                        },
                        None => None,
                    },
                    None => None,
                },
                None => None,
            }
        },
        None => None,
    }
}

/// The commit that a payload denotes: the payload must be well-formed
/// UTF-8, and its text a commit.
pub open spec fn decode_commit(bytes: Seq<u8>) -> Option<CommitView> {
    if valid_utf8(bytes) {
        parse_commit(decode_utf8(bytes))
    } else {
        None
    }
}

/// A commit: the tree it records, the commits it follows, who wrote and who
/// committed it, and its message.
#[derive(Debug, Clone, PartialEq, Eq)]
pub struct Commit {
    pub tree_hash: String,
    pub parent_hashes: Vec<String>,
    pub author: String,
    pub committer: String,
    pub message: String,
}

impl View for Commit {
    type V = CommitView;

    open spec fn view(&self) -> CommitView {
        CommitView {
            tree_hash: self.tree_hash@,
            parent_hashes: texts(self.parent_hashes@),
            author: self.author@,
            committer: self.committer@,
            message: self.message@,
        }
    }
}

/// The views of the given strings, in order.
pub open spec fn texts(strings: Seq<String>) -> Seq<Seq<char>> {
    Seq::new(strings.len(), |i: int| strings[i]@)
}

/// If the line that starts at `at` is a header line with the key `key`:
/// the positions at which its value starts and ends. The line end stands at
/// the latter.
fn field_at(chars: &[char], at: usize, key: &str) -> (r: Option<(usize, usize)>)
    requires
        at <= chars@.len(),
    ensures
        match r {
            Some((from, to)) => {
                &&& at <= from <= to < chars@.len()
                &&& take_field(chars@.skip(at as int), key@) == Some(
                    (chars@.subrange(from as int, to as int), chars@.skip(to + 1)),
                )
            },
            None => take_field(chars@.skip(at as int), key@) is None,
        },
{
    let end = find_char(chars, at, '\n');
    if end >= chars.len() {
        return None;
    }
    let line = slice_subrange(chars, at, end);
    let gap = find_char(line, 0, ' ');
    proof {
        let text = chars@.skip(at as int);
        assert(line@ =~= text.take(end - at));
        assert(line@.skip(0) =~= line@);
        assert(text.skip(end - at + 1) =~= chars@.skip(end + 1));
    }
    if gap >= line.len() {
        return None;
    }
    assert(line@.skip(gap + 1) =~= chars@.subrange(at + gap + 1, end as int));
    assert(line@.subrange(0, gap as int) =~= line@.take(gap as int));
    if !spells(slice_subrange(line, 0, gap), key) {
        return None;
    }
    Some((at + gap + 1, end))
}

/// If the line that starts at `at` is a header line with the key `key`:
/// its value, and the position behind the line.
fn read_field(text: &str, chars: &[char], at: usize, key: &str) -> (r: Option<(String, usize)>)
    requires
        chars@ == text@,
        at <= chars@.len(),
    ensures
        match r {
            Some((value, next)) => {
                &&& at < next <= chars@.len()
                &&& take_field(chars@.skip(at as int), key@) == Some(
                    (value@, chars@.skip(next as int)),
                )
            },
            None => take_field(chars@.skip(at as int), key@) is None,
        },
{
    match field_at(chars, at, key) {
        Some((from, to)) => {
            assert(to < chars.len());
            Some((substring(text, from, to), to + 1))
        },
        None => None,
    }
}

/// The values of the `parent` lines that start at `at`, and the position
/// behind the last of them.
fn read_parents(text: &str, chars: &[char], at: usize) -> (r: (Vec<String>, usize))
    requires
        chars@ == text@,
        at <= chars@.len(),
    ensures
        at <= r.1 <= chars@.len(),
        take_parents(chars@.skip(at as int)) == (texts(r.0@), chars@.skip(r.1 as int)),
{
    let mut parents: Vec<String> = Vec::new();
    let mut next: usize = at;
    assert(texts(parents@) =~= Seq::<Seq<char>>::empty());
    loop
        invariant_except_break
            chars@ == text@,
            at <= next <= chars@.len(),
            take_parents(chars@.skip(at as int)) == (
                texts(parents@) + take_parents(chars@.skip(next as int)).0,
                take_parents(chars@.skip(next as int)).1,
            ),
        ensures
            at <= next <= chars@.len(),
            take_parents(chars@.skip(at as int)) == (texts(parents@), chars@.skip(next as int)),
        decreases chars@.len() - next,
    {
        match read_field(text, chars, next, "parent") {
            Some((parent, behind)) => {
                proof {
                    let rest = take_parents(chars@.skip(behind as int)).0;
                    assert(texts(parents@) + (seq![parent@] + rest) =~= texts(
                        parents@.push(parent),
                    ) + rest);
                }
                parents.push(parent);
                next = behind;
            },
            None => {
                assert(texts(parents@) + Seq::<Seq<char>>::empty() =~= texts(parents@));
                break ;
            },
        }
    }
    (parents, next)
}

impl Commit {
    /// Decodes a commit payload. A decoded commit is well formed, and the
    /// payload it was decoded from is its payload, byte for byte.
    pub fn from(bytes: &[u8]) -> (r: Option<Commit>)
        ensures
            match r {
                Some(commit) => decode_commit(bytes@) == Some(commit@),
                None => decode_commit(bytes@) is None,
            },
            r matches Some(commit) ==> commit@.wf() && commit@.payload() == bytes@,
    {
        proof {
            if decode_commit(bytes@) is Some {
                commit_payload_canonical(bytes@);
            }
        }
        let text = match as_text(bytes) {
            Some(text) => text,
            None => {
                return None;
            },
        };
        let chars = chars_of(text);
        let all = chars.as_slice();
        assert(all@.skip(0) =~= all@);
        let (tree_hash, at) = match read_field(text, all, 0, "tree") {
            Some(found) => found,
            None => {
                return None;
            },
        };
        let (parent_hashes, at) = read_parents(text, all, at);
        let (author, at) = match read_field(text, all, at, "author") {
            Some(found) => found,
            None => {
                return None;
            },
        };
        let (committer, at) = match read_field(text, all, at, "committer") {
            Some(found) => found,
            None => {
                return None;
            },
        };
        let end = find_char(all, at, '\n');
        if end >= all.len() || end != at {
            assert(all@.skip(at as int).take(end - at).len() == end - at);
            return None;
        }
        let message = substring(text, at + 1, all.len());
        assert(all@.subrange(at + 1, all@.len() as int) =~= all@.skip(at as int).skip(1));
        Some(Commit { tree_hash, parent_hashes, author, committer, message })
    }

    /// The commit as text for a reader: the text that its payload encodes.
    pub fn to_string(&self) -> (text: String)
        ensures
            text@ == self@.text(),
    {
        let mut text = String::new();
        push_field(&mut text, "tree", self.tree_hash.as_str());
        let ghost tree_line = text@;
        let mut i: usize = 0;
        assert(self@.parent_hashes.take(0) =~= Seq::<Seq<char>>::empty());
        assert(tree_line + Seq::<char>::empty() =~= tree_line);
        while i < self.parent_hashes.len()
            invariant
                i <= self.parent_hashes@.len(),
                self@.parent_hashes.len() == self.parent_hashes@.len(),
                text@ == tree_line + parent_lines(self@.parent_hashes.take(i as int)),
            decreases self.parent_hashes@.len() - i,
        {
            let ghost before = self@.parent_hashes.take(i as int);
            let ghost parent = self@.parent_hashes[i as int];
            push_field(&mut text, "parent", self.parent_hashes[i].as_str());
            proof {
                lemma_parent_lines_push(before, parent);
                assert(before.push(parent) =~= self@.parent_hashes.take(i + 1));
                assert(tree_line + parent_lines(before) + field_line("parent"@, parent)
                    =~= tree_line + (parent_lines(before) + field_line("parent"@, parent)));
            }
            i += 1;
        }
        assert(self@.parent_hashes.take(i as int) =~= self@.parent_hashes);
        push_field(&mut text, "author", self.author.as_str());
        push_field(&mut text, "committer", self.committer.as_str());
        text.append("\n");
        text.append(self.message.as_str());
        proof {
            reveal_strlit("\n");
            assert("\n"@ =~= seq!['\n']);
        }
        text
    }

    /// The payload of the commit. Where the commit is well formed, the
    /// payload decodes to it.
    pub fn encode(&self) -> (out: Vec<u8>)
        ensures
            out@ == self@.payload(),
            self@.wf() ==> decode_commit(out@) == Some(self@),
    {
        proof {
            if self@.wf() {
                commit_roundtrip(self@);
            }
        }
        self.to_string().as_str().as_bytes_vec()
    }

    /// The canonical bytes of the commit: header and payload.
    pub fn as_bytes(&self) -> (out: Vec<u8>)
        ensures
            out@ == canonical(ObjectType::Commit, self@.payload()),
    {
        let content = self.encode();
        frame(ObjectType::Commit, content.as_slice())
    }

    /// The identity hash of the commit.
    pub fn calc_hash(&self) -> (out: Vec<u8>)
        ensures
            out@ == sha1_of(canonical(ObjectType::Commit, self@.payload())),
            out@.len() == HASH_LEN,
    {
        let bytes = self.as_bytes();
        sha1_digest(bytes.as_slice())
    }
}

/// Appends the header line of `key` and `value` to `text`.
fn push_field(text: &mut String, key: &str, value: &str)
    ensures
        final(text)@ == old(text)@ + field_line(key@, value@),
{
    text.append(key);
    text.append(" ");
    text.append(value);
    text.append("\n");
    proof {
        reveal_strlit(" ");
        reveal_strlit("\n");
        assert(" "@ =~= seq![' ']);
        assert("\n"@ =~= seq!['\n']);
        assert(text@ =~= old(text)@ + field_line(key@, value@));
    }
}

/// The lines of a concatenation are the concatenation of the lines.
pub proof fn lemma_parent_lines_concat(a: Seq<Seq<char>>, b: Seq<Seq<char>>)
    ensures
        parent_lines(a + b) == parent_lines(a) + parent_lines(b),
    decreases a.len(),
{
    if a.len() == 0 {
        assert(a + b =~= b);
        assert(parent_lines(a) + parent_lines(b) =~= parent_lines(b));
    } else {
        lemma_parent_lines_concat(a.drop_first(), b);
        assert((a + b).drop_first() =~= a.drop_first() + b);
        assert((a + b)[0] == a[0]);
        assert(parent_lines(a + b) =~= parent_lines(a) + parent_lines(b));
    }
}

/// Appending a parent appends its line.
pub proof fn lemma_parent_lines_push(a: Seq<Seq<char>>, parent: Seq<char>)
    ensures
        parent_lines(a.push(parent)) == parent_lines(a) + field_line("parent"@, parent),
{
    let one = seq![parent];
    lemma_parent_lines_concat(a, one);
    assert(a.push(parent) =~= a + one);
    assert(one.drop_first() =~= Seq::<Seq<char>>::empty());
    assert(one[0] == parent);
    assert(parent_lines(one.drop_first()) =~= Seq::<char>::empty());
    assert(parent_lines(one) =~= field_line("parent"@, parent));
}

/// A text that begins with the header line of `key` and `value` yields
/// `value` for `key`, and nothing for any other key.
pub proof fn lemma_take_field(key: Seq<char>, value: Seq<char>, rest: Seq<char>, other: Seq<char>)
    requires
        free_of(key, '\n'),
        free_of(key, ' '),
        free_of(value, '\n'),
    ensures
        take_field(field_line(key, value) + rest, key) == Some((value, rest)),
        other != key ==> take_field(field_line(key, value) + rest, other) is None,
{
    let text = field_line(key, value) + rest;
    let line = key + seq![' '] + value;
    assert(text =~= line + seq!['\n'] + rest);
    lemma_free_of_concat(key + seq![' '], value, '\n');
    lemma_free_of_concat(key, seq![' '], '\n');
    assert(free_of(seq![' '], '\n'));
    lemma_index_of(line, '\n', rest);
    let end = line.len() as int;
    assert(text.take(end) =~= line);
    assert(text.skip(end + 1) =~= rest);
    lemma_index_of(key, ' ', value);
    let gap = key.len() as int;
    assert(line.take(gap) =~= key);
    assert(line.skip(gap + 1) =~= value);
}

/// What `take_field` yields was there: the text is the header line of the
/// key and the value, followed by the rest, and the value holds no line end.
pub proof fn lemma_field_taken(text: Seq<char>, key: Seq<char>)
    requires
        take_field(text, key) is Some,
    ensures
        text == field_line(key, take_field(text, key).unwrap().0) + take_field(
            text,
            key,
        ).unwrap().1,
        free_of(take_field(text, key).unwrap().0, '\n'),
{
    let end = index_of(text, '\n') as int;
    let line = text.take(end);
    let rest = text.skip(end + 1);
    lemma_index_of_props(text, '\n');
    let gap = index_of(line, ' ') as int;
    let value = line.skip(gap + 1);
    lemma_index_of_props(line, ' ');
    assert(line =~= key + seq![' '] + value);
    assert(text =~= line + seq!['\n'] + rest);
    assert forall|j: int| 0 <= j < value.len() implies #[trigger] value[j] != '\n' by {
        assert(value[j] == line[gap + 1 + j]);
    }
}

/// No key holds a space or a line end, and an `author` line is no
/// `parent` line.
proof fn lemma_keys()
    ensures
        free_of("tree"@, ' ') && free_of("tree"@, '\n'),
        free_of("parent"@, ' ') && free_of("parent"@, '\n'),
        free_of("author"@, ' ') && free_of("author"@, '\n'),
        free_of("committer"@, ' ') && free_of("committer"@, '\n'),
        "author"@ != "parent"@,
{
    reveal_strlit("tree");
    reveal_strlit("parent");
    reveal_strlit("author");
    reveal_strlit("committer");
    assert("author"@[0] != "parent"@[0]);
}

/// Parent lines followed by a text that does not begin with a parent line
/// yield the parents, and leave that text.
pub proof fn lemma_take_parents(parents: Seq<Seq<char>>, rest: Seq<char>)
    requires
        forall|i: int| 0 <= i < parents.len() ==> free_of(#[trigger] parents[i], '\n'),
        take_field(rest, "parent"@) is None,
    ensures
        take_parents(parent_lines(parents) + rest) == (parents, rest),
    decreases parents.len(),
{
    if parents.len() == 0 {
        assert(parent_lines(parents) + rest =~= rest);
        assert(parents =~= Seq::<Seq<char>>::empty());
    } else {
        let first = parents[0];
        let more = parents.drop_first();
        let after = parent_lines(more) + rest;
        lemma_keys();
        assert(free_of(first, '\n'));
        lemma_take_field("parent"@, first, after, "parent"@);
        assert(parent_lines(parents) + rest =~= field_line("parent"@, first) + after);
        assert forall|i: int| 0 <= i < more.len() implies free_of(#[trigger] more[i], '\n') by {
            assert(more[i] == parents[i + 1]);
        }
        lemma_take_parents(more, rest);
        assert(seq![first] + more =~= parents);
    }
}

/// What `take_parents` yields was there: the text is the lines of the
/// parents followed by what is left, and no parent holds a line end.
pub proof fn lemma_parents_taken(text: Seq<char>)
    ensures
        text == parent_lines(take_parents(text).0) + take_parents(text).1,
        forall|i: int|
            0 <= i < take_parents(text).0.len() ==> free_of(
                #[trigger] take_parents(text).0[i],
                '\n',
            ),
    decreases text.len(),
{
    match take_field(text, "parent"@) {
        Some((value, rest)) => {
            lemma_field_taken(text, "parent"@);
            lemma_parents_taken(rest);
            let (more, left) = take_parents(rest);
            let all = seq![value] + more;
            assert(all.drop_first() =~= more);
            assert(all[0] == value);
            assert(parent_lines(all) + left =~= field_line("parent"@, value) + (parent_lines(more)
                + left));
            assert forall|i: int| 0 <= i < all.len() implies free_of(#[trigger] all[i], '\n') by {
                if i > 0 {
                    assert(all[i] == more[i - 1]);
                }
            }
        },
        None => {
            assert(parent_lines(Seq::<Seq<char>>::empty()) + text =~= text);
        },
    }
}

/// Decoding the payload of a well-formed commit gives the commit back.
pub proof fn commit_roundtrip(commit: CommitView)
    requires
        commit.wf(),
    ensures
        parse_commit(commit.text()) == Some(commit),
        decode_commit(commit.payload()) == Some(commit),
{
    let after_committer = seq!['\n'] + commit.message;
    let after_author = field_line("committer"@, commit.committer) + after_committer;
    let after_parents = field_line("author"@, commit.author) + after_author;
    let after_tree = parent_lines(commit.parent_hashes) + after_parents;
    let text = commit.text();
    lemma_keys();
    assert(text =~= field_line("tree"@, commit.tree_hash) + after_tree);
    lemma_take_field("tree"@, commit.tree_hash, after_tree, "tree"@);
    lemma_take_field("author"@, commit.author, after_author, "parent"@);
    lemma_take_parents(commit.parent_hashes, after_parents);
    lemma_take_field("committer"@, commit.committer, after_committer, "committer"@);
    assert(after_committer =~= Seq::<char>::empty() + seq!['\n'] + commit.message);
    lemma_index_of(Seq::<char>::empty(), '\n', commit.message);
    assert(after_committer.take(0).len() == 0);
    assert(after_committer.skip(1) =~= commit.message);
    encode_utf8_valid_utf8(text);
    encode_utf8_decode_utf8(text);
}

/// A text whose first line is empty is a line end followed by the rest.
pub proof fn lemma_blank_line_taken(text: Seq<char>)
    requires
        split_line(text) is Some,
        split_line(text).unwrap().0.len() == 0,
    ensures
        text == seq!['\n'] + split_line(text).unwrap().1,
{
    lemma_index_of_props(text, '\n');
    assert(text =~= seq!['\n'] + text.skip(1));
}

/// Concatenation of six texts, grouped from the right, is their
/// concatenation grouped from the left.
proof fn lemma_regroup(
    a: Seq<char>,
    b: Seq<char>,
    c: Seq<char>,
    d: Seq<char>,
    e: Seq<char>,
    f: Seq<char>,
)
    ensures
        a + (b + (c + (d + (e + f)))) == a + b + c + d + e + f,
{
    assert(a + (b + (c + (d + (e + f)))) =~= a + b + c + d + e + f);
}

/// Every text that decodes is the text of the commit it decodes to, and
/// that commit is well formed: the decoder accepts canonical texts only.
pub proof fn commit_canonical(text: Seq<char>)
    requires
        parse_commit(text) is Some,
    ensures
        parse_commit(text).unwrap().text() == text,
        parse_commit(text).unwrap().wf(),
{
    let commit = parse_commit(text).unwrap();
    let after_tree = take_field(text, "tree"@).unwrap().1;
    let after_parents = take_parents(after_tree).1;
    let after_author = take_field(after_parents, "author"@).unwrap().1;
    let after_committer = take_field(after_author, "committer"@).unwrap().1;
    assert(commit.tree_hash == take_field(text, "tree"@).unwrap().0);
    assert(commit.parent_hashes == take_parents(after_tree).0);
    assert(commit.author == take_field(after_parents, "author"@).unwrap().0);
    assert(commit.committer == take_field(after_author, "committer"@).unwrap().0);
    assert(commit.message == split_line(after_committer).unwrap().1);
    assert(split_line(after_committer).unwrap().0.len() == 0);
    lemma_field_taken(text, "tree"@);
    lemma_parents_taken(after_tree);
    lemma_field_taken(after_parents, "author"@);
    lemma_field_taken(after_author, "committer"@);
    lemma_blank_line_taken(after_committer);
    lemma_regroup(
        field_line("tree"@, commit.tree_hash),
        parent_lines(commit.parent_hashes),
        field_line("author"@, commit.author),
        field_line("committer"@, commit.committer),
        seq!['\n'],
        commit.message,
    );
}

/// Every payload that decodes is the payload of the commit it decodes to:
/// encoding a decoded commit reproduces the payload byte for byte.
pub proof fn commit_payload_canonical(bytes: Seq<u8>)
    requires
        decode_commit(bytes) is Some,
    ensures
        decode_commit(bytes).unwrap().payload() == bytes,
        decode_commit(bytes).unwrap().wf(),
{
    commit_canonical(decode_utf8(bytes));
    decode_utf8_encode_utf8(bytes);
}

} // verus!
