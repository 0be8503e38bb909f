//! The conversation format: a document is a sequence of turns, each a user
//! message written as a blockquote (`> ` lines, optionally opened by
//! `@name:`) followed by the assistant's reply as plain markdown.
use vstd::prelude::*;
use vstd::slice::slice_subrange;
use crate::text::{
    blank, chars_of, push_chars, is_blank, join, join_seq, lines, lines_of, push_char, starts_with_char, trim_end,
    trim_end_seq, trim_start, trim_start_seq, views,
};

verus! {

/// A user message, with its optional `@name:` attribution.
#[derive(Debug, Clone, PartialEq)]
pub struct UserMessage {
    pub username: Option<String>,
    pub content: String,
}

/// One exchange: a user message and the assistant's reply (possibly empty).
#[derive(Debug, Clone, PartialEq)]
pub struct Turn {
    pub user: UserMessage,
    pub assistant: String,
}

/// A parsed conversation.
#[derive(Debug, Clone, PartialEq)]
pub struct Document {
    pub turns: Vec<Turn>,
}

/// A conformance problem, at a 1-based line number.
#[derive(Debug, Clone, PartialEq)]
pub struct Issue {
    pub line: usize,
    pub message: String,
}

/// A message in the chat-completions shape.
#[derive(Debug, Clone)]
pub struct ChatMessage {
    pub role: String,
    pub content: String,
}

/// A message in the responses shape.
#[derive(Debug, Clone)]
pub struct ResponsesMessage {
    pub msg_type: String,
    pub role: String,
    pub content: Vec<ContentPart>,
}

/// One typed piece of text of a [`ResponsesMessage`].
#[derive(Debug, Clone)]
pub struct ContentPart {
    pub part_type: String,
    pub text: String,
}

/// The mathematical value of a user message.
pub ghost struct UserView {
    pub username: Option<Seq<char>>,
    pub content: Seq<char>,
}

/// The mathematical value of a turn.
pub ghost struct TurnView {
    pub user: UserView,
    pub assistant: Seq<char>,
}

impl View for UserMessage {
    type V = UserView;

    open spec fn view(&self) -> UserView {
        UserView {
            username: match self.username {
                Some(n) => Some(n@),
                None => None,
            },
            content: self.content@,
        }
    }
}

impl View for Turn {
    type V = TurnView;

    open spec fn view(&self) -> TurnView {
        TurnView { user: self.user@, assistant: self.assistant@ }
    }
}

impl View for Document {
    type V = Seq<TurnView>;

    open spec fn view(&self) -> Seq<TurnView> {
        self.turns@.map_values(|t: Turn| t@)
    }
}

impl View for ChatMessage {
    type V = (Seq<char>, Seq<char>);

    open spec fn view(&self) -> (Seq<char>, Seq<char>) {
        (self.role@, self.content@)
    }
}

impl View for ContentPart {
    type V = (Seq<char>, Seq<char>);

    open spec fn view(&self) -> (Seq<char>, Seq<char>) {
        (self.part_type@, self.text@)
    }
}

impl View for ResponsesMessage {
    type V = (Seq<char>, Seq<char>, Seq<(Seq<char>, Seq<char>)>);

    open spec fn view(&self) -> (Seq<char>, Seq<char>, Seq<(Seq<char>, Seq<char>)>) {
        (self.msg_type@, self.role@, self.content@.map_values(|p: ContentPart| p@))
    }
}

// ---------------------------------------------------------------- writing

/// The text a user message stands for: `@name: ` before the content when attributed.
pub open spec fn user_text(u: UserView) -> Seq<char> {
    match u.username {
        Some(n) => seq!['@'] + n + seq![':', ' '] + u.content,
        None => u.content,
    }
}

/// Each line prefixed with `"> "` and terminated by a newline.
pub open spec fn quoted(ls: Seq<Seq<char>>) -> Seq<char>
    decreases ls.len(),
{
    if ls.len() == 0 {
        Seq::empty()
    } else {
        quoted(ls.drop_last()) + seq!['>', ' '] + ls.last() + seq!['\n']
    }
}

/// One turn written out: its quoted user lines, then the reply and a newline if any.
pub open spec fn turn_text(t: TurnView) -> Seq<char> {
    quoted(lines_of(user_text(t.user))) + if t.assistant.len() == 0 {
        Seq::empty()
    } else {
        t.assistant + seq!['\n']
    }
}

/// All turns written out, a blank line between each two.
pub open spec fn turns_text(ts: Seq<TurnView>) -> Seq<char>
    decreases ts.len(),
{
    if ts.len() == 0 {
        Seq::empty()
    } else {
        turns_text(ts.drop_last()) + (if ts.len() > 1 {
            seq!['\n', '\n']
        } else {
            Seq::empty()
        }) + turn_text(ts.last())
    }
}

/// The serialised form of a document: all turns written out, trailing whitespace removed.
pub open spec fn cmf_text(ts: Seq<TurnView>) -> Seq<char> {
    trim_end_seq(turns_text(ts))
}

// ---------------------------------------------------------------- reading

/// A user line: one that begins with `>` in its first column.
pub open spec fn is_user_line(l: Seq<char>) -> bool {
    l.len() > 0 && l[0] == '>'
}

/// A user line without its `>` and at most one space after it.
pub open spec fn unquoted(l: Seq<char>) -> Seq<char> {
    let c = l.drop_first();
    if c.len() > 0 && c[0] == ' ' {
        c.drop_first()
    } else {
        c
    }
}

/// `i` is the first position of `c` in `s`.
pub open spec fn first_at(s: Seq<char>, c: char, i: int) -> bool {
    0 <= i < s.len() && s[i] == c && forall|j: int| 0 <= j < i ==> s[j] != c
}

/// The first line opens with `@` and holds a `:`: the text between them names the user.
pub open spec fn attributed(ls: Seq<Seq<char>>) -> bool {
    ls.len() > 0 && ls[0].len() > 0 && ls[0][0] == '@' && exists|i: int|
        0 <= i < ls[0].len() && ls[0][i] == ':'
}

/// The position of the first `:` of the first line of an attributed block.
pub open spec fn colon_of(ls: Seq<Seq<char>>) -> int {
    choose|i: int| first_at(ls[0], ':', i)
}

/// The user message that a block of unquoted user lines holds.
pub open spec fn user_of(ls: Seq<Seq<char>>) -> UserView {
    if attributed(ls) {
        let c = colon_of(ls);
        let first = trim_start_seq(ls[0].subrange(c + 1, ls[0].len() as int));
        UserView {
            username: Some(ls[0].subrange(1, c)),
            content: if ls.len() > 1 {
                first + seq!['\n'] + join_seq(ls.drop_first(), seq!['\n'])
            } else {
                first
            },
        }
    } else {
        UserView { username: None, content: join_seq(ls, seq!['\n']) }
    }
}

/// Some line of `ls` is not blank.
pub open spec fn has_text(ls: Seq<Seq<char>>) -> bool {
    exists|i: int| 0 <= i < ls.len() && !is_blank(ls[i])
}

/// The first line of `ls` that is not blank.
pub open spec fn first_text(ls: Seq<Seq<char>>) -> int {
    choose|i: int|
        0 <= i < ls.len() && !is_blank(ls[i]) && forall|j: int| 0 <= j < i ==> is_blank(ls[j])
}

/// The last line of `ls` that is not blank.
pub open spec fn last_text(ls: Seq<Seq<char>>) -> int {
    choose|i: int|
        0 <= i < ls.len() && !is_blank(ls[i]) && forall|j: int|
            i < j < ls.len() ==> is_blank(ls[j])
}

/// A reply: its lines without the blank lines that lead and trail, joined by newlines.
pub open spec fn reply_of(ls: Seq<Seq<char>>) -> Seq<char> {
    if has_text(ls) {
        join_seq(ls.subrange(first_text(ls), last_text(ls) + 1), seq!['\n'])
    } else {
        Seq::empty()
    }
}

/// What the reader holds after some lines.
pub ghost struct ReadState {
    pub turns: Seq<TurnView>,
    pub user: Seq<Seq<char>>,
    pub reply: Seq<Seq<char>>,
    pub in_user: bool,
    pub seen_user: bool,
}

/// The turn that the pending user and reply lines make.
pub open spec fn pending_turn(st: ReadState) -> TurnView {
    TurnView { user: user_of(st.user), assistant: reply_of(st.reply) }
}

/// The reader after one more line. A user line that follows a reply closes the
/// pending turn; lines before the first user line are a preamble and dropped.
pub open spec fn read_line(st: ReadState, l: Seq<char>) -> ReadState {
    if is_user_line(l) {
        let closed = if st.seen_user && !st.in_user && st.user.len() > 0 {
            ReadState {
                turns: st.turns.push(pending_turn(st)),
                user: Seq::empty(),
                reply: Seq::empty(),
                ..st
            }
        } else {
            st
        };
        ReadState { user: closed.user.push(unquoted(l)), in_user: true, seen_user: true, ..closed }
    } else {
        ReadState {
            reply: if st.seen_user {
                st.reply.push(l)
            } else {
                st.reply
            },
            in_user: false,
            ..st
        }
    }
}

/// The reader after all of `ls`.
pub open spec fn read_lines(ls: Seq<Seq<char>>) -> ReadState
    decreases ls.len(),
{
    if ls.len() == 0 {
        ReadState {
            turns: Seq::empty(),
            user: Seq::empty(),
            reply: Seq::empty(),
            in_user: false,
            seen_user: false,
        }
    } else {
        read_line(read_lines(ls.drop_last()), ls.last())
    }
}

/// The turns of a text: those the reader closed, and the pending one if it has user lines.
pub open spec fn parsed(s: Seq<char>) -> Seq<TurnView> {
    let st = read_lines(lines_of(s));
    if st.user.len() > 0 {
        st.turns.push(pending_turn(st))
    } else {
        st.turns
    }
}

/// The 1-based numbers of the user lines that follow a line that is not blank.
pub open spec fn issue_lines(ls: Seq<Seq<char>>) -> Seq<int>
    decreases ls.len(),
{
    if ls.len() == 0 {
        Seq::empty()
    } else {
        let i = ls.len() - 1;
        let prev = issue_lines(ls.drop_last());
        if is_user_line(ls[i]) && i > 0 && !is_blank(ls[i - 1]) {
            prev.push(i + 1)
        } else {
            prev
        }
    }
}

// ---------------------------------------------------------------- exporting

/// The chat messages of some turns: the user's, then the reply's when it is not empty.
pub open spec fn chat_of(ts: Seq<TurnView>) -> Seq<(Seq<char>, Seq<char>)>
    decreases ts.len(),
{
    if ts.len() == 0 {
        Seq::empty()
    } else {
        let t = ts.last();
        let prev = chat_of(ts.drop_last()).push(("user"@, t.user.content));
        if t.assistant.len() == 0 {
            prev
        } else {
            prev.push(("assistant"@, t.assistant))
        }
    }
}

/// The responses messages of some turns, in the order of [`chat_of`].
pub open spec fn responses_of(ts: Seq<TurnView>) -> Seq<
    (Seq<char>, Seq<char>, Seq<(Seq<char>, Seq<char>)>),
>
    decreases ts.len(),
{
    if ts.len() == 0 {
        Seq::empty()
    } else {
        let t = ts.last();
        let prev = responses_of(ts.drop_last()).push(
            ("message"@, "user"@, seq![("input_text"@, t.user.content)]),
        );
        if t.assistant.len() == 0 {
            prev
        } else {
            prev.push(("message"@, "assistant"@, seq![("output_text"@, t.assistant)]))
        }
    }
}

/// The user message that a block of unquoted user lines holds: an opening
/// `@name:` on the first line names the user and is cut from the content.
pub fn parse_user_block(lines: &[String]) -> (r: UserMessage)
    ensures
        r@ == user_of(views(lines@)),
{
    let ghost ls = views(lines@);
    proof {
        reveal_strlit("\n");
        assert("\n"@ =~= seq!['\n']);
    }
    if lines.len() > 0 {
        let cs = chars_of(lines[0].as_str());
        if cs.len() > 0 && cs[0] == '@' {
            let mut i: usize = 0;
            while i < cs.len() && cs[i] != ':'
                invariant
                    i <= cs@.len(),
                    forall|j: int| 0 <= j < i ==> cs@[j] != ':',
                decreases cs@.len() - i,
            {
                i = i + 1;
            }
            if i < cs.len() {
                let mut username = String::new();
                push_chars(&mut username, slice_subrange(cs.as_slice(), 1, i));
                let mut after = String::new();
                push_chars(&mut after, slice_subrange(cs.as_slice(), i + 1, cs.len()));
                let mut content = trim_start(after.as_str());
                let ghost first = content@;
                if lines.len() > 1 {
                    push_char(&mut content, '\n');
                    let rest = join(slice_subrange(lines, 1, lines.len()), "\n");
                    content.append(rest.as_str());
                    assert(views(lines@.subrange(1, lines@.len() as int)) =~= ls.drop_first());
                    assert(content@ =~= first + seq!['\n'] + join_seq(ls.drop_first(), seq!['\n']));
                }
                proof {
                    assert(ls[0] == cs@);
                    assert(first_at(ls[0], ':', i as int));
                    assert(attributed(ls));
                    let c = colon_of(ls);
                    assert(first_at(ls[0], ':', c));
                    if c < i {
                        assert(cs@[c] != ':');
                    }
                    if c > i {
                        assert(ls[0][i as int] != ':');
                    }
                    assert(c == i);
                }
                return UserMessage { username: Some(username), content };
            }
        }
    }
    let content = join(lines, "\n");
    proof {
        if attributed(ls) {
            let k = choose|k: int| 0 <= k < ls[0].len() && ls[0][k] == ':';
            assert(ls[0][k] == ':');
        }
    }
    UserMessage { username: None, content }
}

/// A reply: its lines without the leading and trailing blank lines, joined by newlines.
pub fn trim_assistant_block(lines: &[String]) -> (r: String)
    ensures
        r@ == reply_of(views(lines@)),
{
    let ghost ls = views(lines@);
    let n = lines.len();
    let mut start: usize = 0;
    while start < n && blank(lines[start].as_str())
        invariant
            n == lines@.len(),
            ls == views(lines@),
            start <= n,
            forall|j: int| 0 <= j < start ==> is_blank(#[trigger] ls[j]),
        decreases n - start,
    {
        start = start + 1;
    }
    let mut end: usize = n;
    while end > start && blank(lines[end - 1].as_str())
        invariant
            n == lines@.len(),
            ls == views(lines@),
            start <= end <= n,
            forall|j: int| end <= j < n ==> is_blank(#[trigger] ls[j]),
        decreases end,
    {
        end = end - 1;
    }
    if start >= end {
        proof {
            if has_text(ls) {
                let k = choose|k: int| 0 <= k < ls.len() && !is_blank(ls[k]);
                assert(is_blank(ls[k]));
            }
        }
        return String::new();
    }
    proof {
        reveal_strlit("\n");
        assert("\n"@ =~= seq!['\n']);
        assert(!is_blank(ls[start as int]));
        assert(has_text(ls));
        let f = first_text(ls);
        if f < start {
            assert(is_blank(ls[f]));
        }
        if f > start {
            assert(is_blank(ls[start as int]));
        }
        assert(!is_blank(ls[end - 1]));
        let l = last_text(ls);
        if l < end - 1 {
            assert(is_blank(ls[end - 1]));
        }
        if l > end - 1 {
            assert(is_blank(ls[l]));
        }
        assert(views(lines@.subrange(start as int, end as int)) =~= ls.subrange(
            start as int,
            end as int,
        ));
    }
    join(slice_subrange(lines, start, end), "\n")
}

impl Document {
    /// Whether some line begins with `>`: a document holds at least one user block.
    pub fn is_valid_cmf(input: &str) -> (r: bool)
        ensures
            r == exists|i: int|
                0 <= i < lines_of(input@).len() && is_user_line(#[trigger] lines_of(input@)[i]),
    {
        let ls = lines(input);
        let mut i: usize = 0;
        while i < ls.len()
            invariant
                views(ls@) == lines_of(input@),
                i <= ls@.len(),
                forall|j: int| 0 <= j < i ==> !is_user_line(#[trigger] lines_of(input@)[j]),
            decreases ls@.len() - i,
        {
            if starts_with_char(ls[i].as_str(), '>') {
                assert(is_user_line(lines_of(input@)[i as int]));
                return true;
            }
            i = i + 1;
        }
        false
    }

    /// The user lines that do not open the text and do not follow a blank
    /// line, each reported with its 1-based line number.
    pub fn check(input: &str) -> (r: Vec<Issue>)
        ensures
            r@.len() == issue_lines(lines_of(input@)).len(),
            forall|k: int|
                0 <= k < r@.len() ==> (#[trigger] r@[k]).line == issue_lines(lines_of(input@))[k]
                    && r@[k].message@ == "User line not preceded by blank line or start of file"@,
    {
        let ghost all = lines_of(input@);
        let ls = lines(input);
        let mut issues: Vec<Issue> = Vec::new();
        let mut prev_blank_or_start = true;
        let mut i: usize = 0;
        while i < ls.len()
            invariant
                views(ls@) == all,
                i <= ls@.len(),
                prev_blank_or_start == (i == 0 || is_blank(all[i - 1])),
                issues@.len() == issue_lines(all.subrange(0, i as int)).len(),
                forall|k: int|
                    0 <= k < issues@.len() ==> (#[trigger] issues@[k]).line == issue_lines(
                        all.subrange(0, i as int),
                    )[k] && issues@[k].message@
                        == "User line not preceded by blank line or start of file"@,
            decreases ls@.len() - i,
        {
            let ghost sub = all.subrange(0, i + 1);
            assert(sub.drop_last() =~= all.subrange(0, i as int));
            if starts_with_char(ls[i].as_str(), '>') && !prev_blank_or_start {
                issues.push(
                    Issue {
                        line: i + 1,
                        message: String::from_str(
                            "User line not preceded by blank line or start of file",
                        ),
                    },
                );
            }
            prev_blank_or_start = blank(ls[i].as_str());
            i = i + 1;
        }
        assert(all.subrange(0, all.len() as int) =~= all);
        issues
    }
}

/// The text a user message stands for, attribution included.
fn user_line_text(u: &UserMessage) -> (r: String)
    ensures
        r@ == user_text(u@),
{
    match &u.username {
        Some(name) => {
            proof {
                reveal_strlit("@");
                reveal_strlit(": ");
            }
            let mut s = String::from_str("@");
            s.append(name.as_str());
            s.append(": ");
            s.append(u.content.as_str());
            assert(s@ =~= user_text(u@));
            s
        },
        None => u.content.clone(),
    }
}

impl Document {
    /// Writes the document out: each user line as `> line`, each reply after its
    /// user block, a blank line between turns, no trailing whitespace.
    pub fn to_cmf(&self) -> (r: String)
        ensures
            r@ == cmf_text(self@),
    {
        proof {
            reveal_strlit("\n\n");
            reveal_strlit("> ");
            assert("\n\n"@ =~= seq!['\n', '\n']);
            assert("> "@ =~= seq!['>', ' ']);
        }
        let mut out = String::new();
        let mut i: usize = 0;
        while i < self.turns.len()
            invariant
                "> "@ == seq!['>', ' '],
                "\n\n"@ == seq!['\n', '\n'],
                i <= self.turns@.len(),
                out@ == turns_text(self@.subrange(0, i as int)),
            decreases self.turns@.len() - i,
        {
            let turn = &self.turns[i];
            let ghost pre = out@;
            if i > 0 {
                out.append("\n\n");
            }
            let ghost start = out@;
            let user_content = user_line_text(&turn.user);
            let ls = lines(user_content.as_str());
            let mut j: usize = 0;
            while j < ls.len()
                invariant
                    "> "@ == seq!['>', ' '],
                    j <= ls@.len(),
                    out@ == start + quoted(views(ls@).subrange(0, j as int)),
                decreases ls@.len() - j,
            {
                out.append("> ");
                out.append(ls[j].as_str());
                push_char(&mut out, '\n');
                proof {
                    let q = views(ls@).subrange(0, j + 1);
                    assert(q.drop_last() =~= views(ls@).subrange(0, j as int));
                    assert(q.last() == ls@[j as int]@);
                    assert(out@ =~= start + quoted(q));
                }
                j = j + 1;
            }
            assert(views(ls@).subrange(0, ls@.len() as int) =~= views(ls@));
            if !turn.assistant.as_str().is_empty() {
                out.append(turn.assistant.as_str());
                push_char(&mut out, '\n');
            }
            proof {
                let ts = self@.subrange(0, i + 1);
                assert(ts.drop_last() =~= self@.subrange(0, i as int));
                assert(ts.last() == turn@);
                assert(turns_text(ts.drop_last()) == pre);
                assert(out@ =~= turns_text(ts));
            }
            i = i + 1;
        }
        assert(self@.subrange(0, self.turns@.len() as int) =~= self@);
        trim_end(out.as_str())
    }

    /// Reads a document: each run of user lines opens a turn, the lines up to the
    /// next run are its reply; lines before the first user line are ignored.
    pub fn parse(input: &str) -> (r: Document)
        ensures
            r@ == parsed(input@),
    {
        let ghost all = lines_of(input@);
        let ls = lines(input);
        let mut turns: Vec<Turn> = Vec::new();
        let mut user: Vec<String> = Vec::new();
        let mut reply: Vec<String> = Vec::new();
        let mut in_user = false;
        let mut seen = false;
        let mut i: usize = 0;
        while i < ls.len()
            invariant
                views(ls@) == all,
                i <= ls@.len(),
                turns@.map_values(|t: Turn| t@) == read_lines(all.subrange(0, i as int)).turns,
                views(user@) == read_lines(all.subrange(0, i as int)).user,
                views(reply@) == read_lines(all.subrange(0, i as int)).reply,
                in_user == read_lines(all.subrange(0, i as int)).in_user,
                seen == read_lines(all.subrange(0, i as int)).seen_user,
            decreases ls@.len() - i,
        {
            let ghost st = read_lines(all.subrange(0, i as int));
            let ghost l = all[i as int];
            proof {
                assert(all.subrange(0, i + 1).drop_last() =~= all.subrange(0, i as int));
                assert(all.subrange(0, i + 1).last() == l);
            }
            let line = &ls[i];
            if starts_with_char(line.as_str(), '>') {
                if seen && !in_user && user.len() > 0 {
                    let u = parse_user_block(user.as_slice());
                    let a = trim_assistant_block(reply.as_slice());
                    let ghost before = turns@;
                    turns.push(Turn { user: u, assistant: a });
                    assert(turns@.map_values(|t: Turn| t@) =~= before.map_values(|t: Turn| t@).push(
                        pending_turn(st),
                    ));
                    user = Vec::new();
                    reply = Vec::new();
                    assert(views(user@) =~= Seq::empty());
                    assert(views(reply@) =~= Seq::empty());
                }
                let cs = chars_of(line.as_str());
                let from: usize = if cs.len() > 1 && cs[1] == ' ' {
                    2
                } else {
                    1
                };
                let mut content = String::new();
                push_chars(&mut content, slice_subrange(cs.as_slice(), from, cs.len()));
                assert(content@ =~= unquoted(l));
                let ghost ub = user@;
                user.push(content);
                assert(views(user@) =~= views(ub).push(unquoted(l)));
                in_user = true;
                seen = true;
            } else {
                in_user = false;
                if seen {
                    let ghost rb = reply@;
                    reply.push(line.clone());
                    assert(views(reply@) =~= views(rb).push(l));
                }
            }
            i = i + 1;
        }
        assert(all.subrange(0, all.len() as int) =~= all);
        if user.len() > 0 {
            let u = parse_user_block(user.as_slice());
            let a = trim_assistant_block(reply.as_slice());
            let ghost before = turns@;
            turns.push(Turn { user: u, assistant: a });
            assert(turns@.map_values(|t: Turn| t@) =~= before.map_values(|t: Turn| t@).push(
                pending_turn(read_lines(all)),
            ));
        }
        Document { turns }
    }

    /// The turns as chat messages: the user's, then the reply's when it is not empty.
    pub fn to_openai_chat(&self) -> (r: Vec<ChatMessage>)
        ensures
            r@.map_values(|m: ChatMessage| m@) == chat_of(self@),
    {
        let mut messages: Vec<ChatMessage> = Vec::new();
        let mut i: usize = 0;
        while i < self.turns.len()
            invariant
                i <= self.turns@.len(),
                messages@.map_values(|m: ChatMessage| m@) == chat_of(self@.subrange(0, i as int)),
            decreases self.turns@.len() - i,
        {
            let turn = &self.turns[i];
            let ghost before = messages@;
            messages.push(
                ChatMessage { role: String::from_str("user"), content: turn.user.content.clone() },
            );
            if !turn.assistant.as_str().is_empty() {
                messages.push(
                    ChatMessage {
                        role: String::from_str("assistant"),
                        content: turn.assistant.clone(),
                    },
                );
            }
            proof {
                let ts = self@.subrange(0, i + 1);
                assert(ts.drop_last() =~= self@.subrange(0, i as int));
                assert(ts.last() == turn@);
                assert(messages@.map_values(|m: ChatMessage| m@) =~= chat_of(ts));
            }
            i = i + 1;
        }
        assert(self@.subrange(0, self.turns@.len() as int) =~= self@);
        messages
    }

    /// The turns as typed responses messages, in the order of [`Document::to_openai_chat`].
    pub fn to_openai_responses(&self) -> (r: Vec<ResponsesMessage>)
        ensures
            r@.map_values(|m: ResponsesMessage| m@) == responses_of(self@),
    {
        let mut messages: Vec<ResponsesMessage> = Vec::new();
        let mut i: usize = 0;
        while i < self.turns.len()
            invariant
                i <= self.turns@.len(),
                messages@.map_values(|m: ResponsesMessage| m@) == responses_of(
                    self@.subrange(0, i as int),
                ),
            decreases self.turns@.len() - i,
        {
            let turn = &self.turns[i];
            let mut parts: Vec<ContentPart> = Vec::new();
            parts.push(
                ContentPart {
                    part_type: String::from_str("input_text"),
                    text: turn.user.content.clone(),
                },
            );
            assert(parts@.map_values(|p: ContentPart| p@) =~= seq![
                ("input_text"@, turn.user.content@),
            ]);
            messages.push(
                ResponsesMessage {
                    msg_type: String::from_str("message"),
                    role: String::from_str("user"),
                    content: parts,
                },
            );
            if !turn.assistant.as_str().is_empty() {
                let mut parts: Vec<ContentPart> = Vec::new();
                parts.push(
                    ContentPart {
                        part_type: String::from_str("output_text"),
                        text: turn.assistant.clone(),
                    },
                );
                assert(parts@.map_values(|p: ContentPart| p@) =~= seq![
                    ("output_text"@, turn.assistant@),
                ]);
                messages.push(
                    ResponsesMessage {
                        msg_type: String::from_str("message"),
                        role: String::from_str("assistant"),
                        content: parts,
                    },
                );
            }
            proof {
                let ts = self@.subrange(0, i + 1);
                assert(ts.drop_last() =~= self@.subrange(0, i as int));
                assert(ts.last() == turn@);
                assert(messages@.map_values(|m: ResponsesMessage| m@) =~= responses_of(ts));
            }
            i = i + 1;
        }
        assert(self@.subrange(0, self.turns@.len() as int) =~= self@);
        messages
    }
}

} // verus!
