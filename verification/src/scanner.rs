//! The command scanner.
//!
//! A document body is opaque text in which a small set of commands is
//! recognised. Each command pattern is searched on its own, from the left and
//! without overlap between two occurrences of the same pattern; the
//! occurrences of all patterns are then merged into one stream ordered by
//! position.
//!
//! Positions are character indices into the scanned text. No two patterns
//! have an occurrence at the same position, so the order of the stream is
//! never in doubt; were it otherwise, `\next` would come first, then deck,
//! model, tag and the two forms of a field.

use crate::text::{find, find_exec, lemma_find, occurs_at, occurs_at_exec, to_chars, to_string};
use vstd::prelude::*;

verus! {

/// What a command asks of the note under construction.
#[derive(Debug)]
pub enum Command {
    /// `\deck{NAME}`
    SetDeck(String),
    /// `\model{NAME}`
    SetModel(String),
    /// `\tag{TAG}`
    AddTag(String),
    /// `\fields{NAME}{VALUE}` or `\begin{field}{NAME}VALUE\end{field}`
    SetField(String, String),
    /// `\next`
    EndNote,
}

/// The mathematical value of a `Command`.
pub enum CommandView {
    SetDeck(Seq<char>),
    SetModel(Seq<char>),
    AddTag(Seq<char>),
    SetField(Seq<char>, Seq<char>),
    EndNote,
}

impl View for Command {
    type V = CommandView;

    open spec fn view(&self) -> CommandView {
        match self {
            Command::SetDeck(name) => CommandView::SetDeck(name@),
            Command::SetModel(name) => CommandView::SetModel(name@),
            Command::AddTag(tag) => CommandView::AddTag(tag@),
            Command::SetField(name, value) => CommandView::SetField(name@, value@),
            Command::EndNote => CommandView::EndNote,
        }
    }
}

impl DeepView for Command {
    type V = CommandView;

    open spec fn deep_view(&self) -> CommandView {
        self@
    }
}

impl Command {
    /// A copy of the command.
    pub fn duplicate(&self) -> (r: Command)
        ensures
            r@ == self@,
    {
        match self {
            Command::SetDeck(name) => Command::SetDeck(name.clone()),
            Command::SetModel(name) => Command::SetModel(name.clone()),
            Command::AddTag(tag) => Command::AddTag(tag.clone()),
            Command::SetField(name, value) => Command::SetField(name.clone(), value.clone()),
            Command::EndNote => Command::EndNote,
        }
    }
}

/// One occurrence of a command in a text.
#[derive(Debug)]
pub struct Token {
    /// The character index at which the occurrence starts.
    pub position: usize,
    pub command: Command,
}

/// The mathematical value of a `Token`.
pub struct TokenView {
    pub position: int,
    pub command: CommandView,
}

impl View for Token {
    type V = TokenView;

    open spec fn view(&self) -> TokenView {
        TokenView { position: self.position as int, command: self.command@ }
    }
}

impl DeepView for Token {
    type V = TokenView;

    open spec fn deep_view(&self) -> TokenView {
        self@
    }
}

/// The surface forms that the scanner recognises. `Field` and `FieldBlock`
/// are two forms of the same command.
#[derive(Clone, Copy, Debug, PartialEq, Eq, Structural)]
pub enum Pattern {
    /// `\next`
    Next,
    /// `\deck{` name `}`
    Deck,
    /// `\model{` name `}`
    Model,
    /// `\tag{` tag `}`
    Tag,
    /// `\fields{` name `}{` value `}`
    Field,
    /// `\begin{field}{` name `}` value `\end{field}`
    FieldBlock,
}

/// The literal with which every occurrence of `pattern` begins.
pub open spec fn opener(pattern: Pattern) -> Seq<char> {
    match pattern {
        Pattern::Next => "\\next"@,
        Pattern::Deck => "\\deck{"@,
        Pattern::Model => "\\model{"@,
        Pattern::Tag => "\\tag{"@,
        Pattern::Field => "\\fields{"@,
        Pattern::FieldBlock => "\\begin{field}{"@,
    }
}

/// The literal that ends the value of a block field.
pub open spec fn block_end() -> Seq<char> {
    "\\end{field}"@
}

/// The brace that ends an argument.
pub open spec fn closing() -> Seq<char> {
    seq!['}']
}

/// The brace that begins the second argument of `\fields`.
pub open spec fn opening() -> Seq<char> {
    seq!['{']
}

/// No opener is empty, nor is the end of a block.
pub proof fn lemma_literals_nonempty()
    ensures
        forall|pattern: Pattern| #[trigger] opener(pattern).len() > 0,
        block_end().len() > 0,
{
    reveal_strlit("\\next");
    reveal_strlit("\\deck{");
    reveal_strlit("\\model{");
    reveal_strlit("\\tag{");
    reveal_strlit("\\fields{");
    reveal_strlit("\\begin{field}{");
    reveal_strlit("\\end{field}");
}

/// An occurrence of a pattern: where it ends, and the command it stands for.
pub struct MatchView {
    pub end: int,
    pub command: CommandView,
}

/// The command of a one-argument pattern.
pub open spec fn unary(pattern: Pattern, argument: Seq<char>) -> CommandView {
    match pattern {
        Pattern::Deck => CommandView::SetDeck(argument),
        Pattern::Model => CommandView::SetModel(argument),
        _ => CommandView::AddTag(argument),
    }
}

/// The occurrence of `pattern` that starts at position `p` of `text`, if
/// there is one.
///
/// An argument in braces is the run of characters up to the next `}`; it may
/// be empty and may span lines. The value of a block field runs up to the
/// nearest `\end{field}`.
pub open spec fn match_at(text: Seq<char>, pattern: Pattern, p: int) -> Option<MatchView> {
    if !occurs_at(text, p, opener(pattern)) {
        None
    } else {
        let a = p + opener(pattern).len();
        let q = find(text, a, closing());
        match pattern {
            Pattern::Next => Some(MatchView { end: a, command: CommandView::EndNote }),
            Pattern::Deck | Pattern::Model | Pattern::Tag => {
                if q < text.len() {
                    Some(MatchView { end: q + 1, command: unary(pattern, text.subrange(a, q)) })
                } else {
                    None
                }
            },
            Pattern::Field => {
                let b = q + 2;
                let r = find(text, b, closing());
                if q < text.len() && occurs_at(text, q + 1, opening()) && r < text.len() {
                    Some(
                        MatchView {
                            end: r + 1,
                            command: CommandView::SetField(
                                text.subrange(a, q),
                                text.subrange(b, r),
                            ),
                        },
                    )
                } else {
                    None
                }
            },
            Pattern::FieldBlock => {
                let c = q + 1;
                let e = find(text, c, block_end());
                if q < text.len() && e < text.len() {
                    Some(
                        MatchView {
                            end: e + block_end().len(),
                            command: CommandView::SetField(
                                text.subrange(a, q),
                                text.subrange(c, e),
                            ),
                        },
                    )
                } else {
                    None
                }
            },
        }
    }
}

/// An occurrence lies within the text and is not empty.
pub proof fn lemma_match_bounds(text: Seq<char>, pattern: Pattern, p: int)
    ensures
        match_at(text, pattern, p) matches Some(m) ==> 0 <= p < m.end <= text.len(),
{
    lemma_literals_nonempty();
    if occurs_at(text, p, opener(pattern)) {
        let a = p + opener(pattern).len();
        lemma_find(text, a, closing());
        let q = find(text, a, closing());
        if q < text.len() {
            if q + 2 <= text.len() {
                lemma_find(text, q + 2, closing());
            }
            lemma_find(text, q + 1, block_end());
        }
    }
}

/// The occurrences of `pattern` in `text` at or after position `from`, taken
/// from the left, each search resuming where the last occurrence ended.
pub open spec fn scan(text: Seq<char>, pattern: Pattern, from: int) -> Seq<TokenView>
    decreases text.len() - from,
    via scan_decreases
{
    if from < 0 || from >= text.len() {
        Seq::empty()
    } else {
        match match_at(text, pattern, from) {
            Some(m) => seq![TokenView { position: from, command: m.command }] + scan(
                text,
                pattern,
                m.end,
            ),
            None => scan(text, pattern, from + 1),
        }
    }
}

#[via_fn]
proof fn scan_decreases(text: Seq<char>, pattern: Pattern, from: int) {
    lemma_match_bounds(text, pattern, from);
}

/// Two position-ordered streams as one; where two tokens share a position,
/// the one of `a` comes first.
pub open spec fn merge(a: Seq<TokenView>, b: Seq<TokenView>) -> Seq<TokenView>
    decreases a.len() + b.len(),
{
    if a.len() == 0 {
        b
    } else if b.len() == 0 {
        a
    } else if a[0].position <= b[0].position {
        seq![a[0]] + merge(a.drop_first(), b)
    } else {
        seq![b[0]] + merge(a, b.drop_first())
    }
}

/// Every command occurrence in `text`, ordered by position.
pub open spec fn token_stream(text: Seq<char>) -> Seq<TokenView> {
    merge(
        scan(text, Pattern::Next, 0),
        merge(
            scan(text, Pattern::Deck, 0),
            merge(
                scan(text, Pattern::Model, 0),
                merge(
                    scan(text, Pattern::Tag, 0),
                    merge(scan(text, Pattern::Field, 0), scan(text, Pattern::FieldBlock, 0)),
                ),
            ),
        ),
    )
}

/// The literals of the command language as character vectors, built once and
/// handed to the scanner by reference.
pub struct PatternTable {
    next: Vec<char>,
    deck: Vec<char>,
    model: Vec<char>,
    tag: Vec<char>,
    field: Vec<char>,
    field_block: Vec<char>,
    block_end: Vec<char>,
    closing: Vec<char>,
    opening: Vec<char>,
}

impl PatternTable {
    /// The table holds the literals of the command language.
    #[verifier::type_invariant]
    spec fn wf(&self) -> bool {
        &&& self.next@ == opener(Pattern::Next)
        &&& self.deck@ == opener(Pattern::Deck)
        &&& self.model@ == opener(Pattern::Model)
        &&& self.tag@ == opener(Pattern::Tag)
        &&& self.field@ == opener(Pattern::Field)
        &&& self.field_block@ == opener(Pattern::FieldBlock)
        &&& self.block_end@ == block_end()
        &&& self.closing@ == closing()
        &&& self.opening@ == opening()
    }

    /// The literal with which the table begins an occurrence of `pattern`.
    pub closed spec fn opener_of(&self, pattern: Pattern) -> Seq<char> {
        match pattern {
            Pattern::Next => self.next@,
            Pattern::Deck => self.deck@,
            Pattern::Model => self.model@,
            Pattern::Tag => self.tag@,
            Pattern::Field => self.field@,
            Pattern::FieldBlock => self.field_block@,
        }
    }

    /// The literal with which the table ends the value of a block field.
    pub closed spec fn block_end_of(&self) -> Seq<char> {
        self.block_end@
    }

    /// The literal with which the table ends an argument.
    pub closed spec fn closing_of(&self) -> Seq<char> {
        self.closing@
    }

    /// The literal with which the table begins a second argument.
    pub closed spec fn opening_of(&self) -> Seq<char> {
        self.opening@
    }

    /// The table of the command language: its literals are the opener of
    /// each pattern, the end of a block field, and the two braces.
    pub fn new() -> (table: PatternTable)
        ensures
            forall|pattern: Pattern| #[trigger] table.opener_of(pattern) == opener(pattern),
            table.block_end_of() == block_end(),
            table.closing_of() == closing(),
            table.opening_of() == opening(),
    {
        let close: Vec<char> = vec!['}'];
        let open: Vec<char> = vec!['{'];
        assert(close@ == closing());
        assert(open@ == opening());
        PatternTable {
            next: to_chars("\\next"),
            deck: to_chars("\\deck{"),
            model: to_chars("\\model{"),
            tag: to_chars("\\tag{"),
            field: to_chars("\\fields{"),
            field_block: to_chars("\\begin{field}{"),
            block_end: to_chars("\\end{field}"),
            closing: close,
            opening: open,
        }
    }

    fn opener(&self, pattern: Pattern) -> (lit: &Vec<char>)
        ensures
            lit@ == opener(pattern),
    {
        proof {
            use_type_invariant(self);
        }
        match pattern {
            Pattern::Next => &self.next,
            Pattern::Deck => &self.deck,
            Pattern::Model => &self.model,
            Pattern::Tag => &self.tag,
            Pattern::Field => &self.field,
            Pattern::FieldBlock => &self.field_block,
        }
    }

    /// The occurrence of `pattern` at position `p` of `text`: its end and
    /// its command.
    pub fn match_at(&self, text: &Vec<char>, pattern: Pattern, p: usize) -> (r: Option<
        (usize, Command),
    >)
        ensures
            match r {
                Some((end, command)) => match_at(text@, pattern, p as int) == Some(
                    MatchView { end: end as int, command: command@ },
                ) && p < end <= text.len(),
                None => match_at(text@, pattern, p as int) is None,
            },
    {
        proof {
            use_type_invariant(self);
            lemma_match_bounds(text@, pattern, p as int);
        }
        let open = self.opener(pattern);
        if !occurs_at_exec(text, p, open) {
            return None;
        }
        let len = text.len();
        let a = p + open.len();
        let q = find_exec(text, a, &self.closing);
        match pattern {
            Pattern::Next => Some((a, Command::EndNote)),
            Pattern::Deck => {
                if q < len {
                    Some((q + 1, Command::SetDeck(to_string(text, a, q))))
                } else {
                    None
                }
            },
            Pattern::Model => {
                if q < len {
                    Some((q + 1, Command::SetModel(to_string(text, a, q))))
                } else {
                    None
                }
            },
            Pattern::Tag => {
                if q < len {
                    Some((q + 1, Command::AddTag(to_string(text, a, q))))
                } else {
                    None
                }
            },
            Pattern::Field => {
                if q < len && occurs_at_exec(text, q + 1, &self.opening) {
                    let b = q + 2;
                    let r = find_exec(text, b, &self.closing);
                    if r < len {
                        Some(
                            (
                                r + 1,
                                Command::SetField(to_string(text, a, q), to_string(text, b, r)),
                            ),
                        )
                    } else {
                        None
                    }
                } else {
                    None
                }
            },
            Pattern::FieldBlock => {
                if q < len {
                    let c = q + 1;
                    let e = find_exec(text, c, &self.block_end);
                    if e < len {
                        proof {
                            lemma_find(text@, c as int, block_end());
                        }
                        Some(
                            (
                                e + self.block_end.len(),
                                Command::SetField(to_string(text, a, q), to_string(text, c, e)),
                            ),
                        )
                    } else {
                        None
                    }
                } else {
                    None
                }
            },
        }
    }

    /// The occurrences of one pattern in `text`.
    pub fn scan(&self, text: &Vec<char>, pattern: Pattern) -> (out: Vec<Token>)
        ensures
            out.deep_view() == scan(text@, pattern, 0),
    {
        let mut out: Vec<Token> = Vec::new();
        let mut p: usize = 0;
        assert(out.deep_view() + scan(text@, pattern, 0) == scan(text@, pattern, 0));
        while p < text.len()
            invariant
                p <= text.len(),
                out.deep_view() + scan(text@, pattern, p as int) == scan(text@, pattern, 0),
            decreases text.len() - p,
        {
            let ghost before = out.deep_view();
            match self.match_at(text, pattern, p) {
                Some((end, command)) => {
                    let token = Token { position: p, command };
                    out.push(token);
                    proof {
                        assert(out.deep_view() == before.push(token@));
                        assert(before.push(token@) + scan(text@, pattern, end as int) == before
                            + (seq![token@] + scan(text@, pattern, end as int)));
                    }
                    p = end;
                },
                None => {
                    p += 1;
                },
            }
        }
        assert(out.deep_view() + Seq::<TokenView>::empty() == out.deep_view());
        out
    }

    /// Every command occurrence in `text`, ordered by position.
    pub fn tokens(&self, text: &Vec<char>) -> (out: Vec<Token>)
        ensures
            out.deep_view() == token_stream(text@),
    {
        let next = self.scan(text, Pattern::Next);
        let deck = self.scan(text, Pattern::Deck);
        let model = self.scan(text, Pattern::Model);
        let tag = self.scan(text, Pattern::Tag);
        let field = self.scan(text, Pattern::Field);
        let block = self.scan(text, Pattern::FieldBlock);
        let fields = merge_tokens(&field, &block);
        let tagged = merge_tokens(&tag, &fields);
        let modelled = merge_tokens(&model, &tagged);
        let decked = merge_tokens(&deck, &modelled);
        merge_tokens(&next, &decked)
    }
}

/// Two position-ordered streams as one.
pub fn merge_tokens(a: &Vec<Token>, b: &Vec<Token>) -> (out: Vec<Token>)
    ensures
        out.deep_view() == merge(a.deep_view(), b.deep_view()),
{
    let mut out: Vec<Token> = Vec::new();
    let mut i: usize = 0;
    let mut j: usize = 0;
    let ghost av = a.deep_view();
    let ghost bv = b.deep_view();
    assert(av.skip(0) == av);
    assert(bv.skip(0) == bv);
    assert(out.deep_view() + merge(av, bv) == merge(av, bv));
    while i < a.len() || j < b.len()
        invariant
            i <= a.len(),
            j <= b.len(),
            av == a.deep_view(),
            bv == b.deep_view(),
            out.deep_view() + merge(av.skip(i as int), bv.skip(j as int)) == merge(av, bv),
        decreases (a.len() - i) + (b.len() - j),
    {
        let ghost before = out.deep_view();
        let ghost ra = av.skip(i as int);
        let ghost rb = bv.skip(j as int);
        let take_a = if i >= a.len() {
            false
        } else if j >= b.len() {
            true
        } else {
            a[i].position <= b[j].position
        };
        if take_a {
            let token = Token { position: a[i].position, command: a[i].command.duplicate() };
            out.push(token);
            proof {
                assert(ra[0] == token@);
                assert(ra.drop_first() == av.skip(i + 1));
                assert(out.deep_view() == before.push(token@));
                if rb.len() == 0 {
                    assert(merge(ra, rb) == ra);
                    assert(merge(ra.drop_first(), rb) == ra.drop_first());
                    assert(ra == seq![ra[0]] + ra.drop_first());
                } else {
                    assert(rb[0] == bv[j as int]);
                }
                assert(merge(ra, rb) == seq![token@] + merge(av.skip(i + 1), rb));
                assert(before.push(token@) + merge(av.skip(i + 1), rb) == before + (seq![token@]
                    + merge(av.skip(i + 1), rb)));
            }
            i += 1;
        } else {
            let token = Token { position: b[j].position, command: b[j].command.duplicate() };
            out.push(token);
            proof {
                assert(rb[0] == token@);
                assert(rb.drop_first() == bv.skip(j + 1));
                assert(out.deep_view() == before.push(token@));
                if ra.len() == 0 {
                    assert(merge(ra, rb) == rb);
                    assert(rb == seq![rb[0]] + rb.drop_first());
                } else {
                    assert(ra[0] == av[i as int]);
                }
                assert(merge(ra, rb) == seq![token@] + merge(ra, bv.skip(j + 1)));
                assert(before.push(token@) + merge(ra, bv.skip(j + 1)) == before + (seq![token@]
                    + merge(ra, bv.skip(j + 1))));
            }
            j += 1;
        }
    }
    assert(merge(av.skip(i as int), bv.skip(j as int)) == Seq::<TokenView>::empty());
    assert(out.deep_view() + Seq::<TokenView>::empty() == out.deep_view());
    out
}

/// Every command occurrence in `text`, ordered by position.
pub fn get_all_matches(text: &str) -> (out: Vec<Token>)
    ensures
        out.deep_view() == token_stream(text@),
{
    let table = PatternTable::new();
    let chars = to_chars(text);
    table.tokens(&chars)
}

/// The positions of `tokens` never decrease.
pub open spec fn ordered(tokens: Seq<TokenView>) -> bool {
    forall|i: int, j: int|
        0 <= i < j < tokens.len() ==> (#[trigger] tokens[i]).position <= (
        #[trigger] tokens[j]).position
}

/// `token` is an occurrence of `pattern` in `text`.
pub open spec fn is_match(text: Seq<char>, pattern: Pattern, token: TokenView) -> bool {
    match_at(text, pattern, token.position) matches Some(m) && m.command == token.command
}

/// `token` is an occurrence of some pattern in `text`.
pub open spec fn is_occurrence(text: Seq<char>, token: TokenView) -> bool {
    exists|pattern: Pattern| is_match(text, pattern, token)
}

/// The occurrences that a scan from `from` reports start at or after `from`,
/// come in strictly increasing order of position, and are occurrences of the
/// pattern.
pub proof fn lemma_scan(text: Seq<char>, pattern: Pattern, from: int)
    requires
        0 <= from,
    ensures
        forall|k: int|
            0 <= k < scan(text, pattern, from).len() ==> from <= (#[trigger] scan(
                text,
                pattern,
                from,
            )[k]).position && is_match(text, pattern, scan(text, pattern, from)[k]),
        forall|i: int, j: int|
            0 <= i < j < scan(text, pattern, from).len() ==> (#[trigger] scan(
                text,
                pattern,
                from,
            )[i]).position < (#[trigger] scan(text, pattern, from)[j]).position,
    decreases text.len() - from,
{
    if from < text.len() {
        lemma_match_bounds(text, pattern, from);
        match match_at(text, pattern, from) {
            Some(m) => {
                lemma_scan(text, pattern, m.end);
                let rest = scan(text, pattern, m.end);
                let all = scan(text, pattern, from);
                assert(all == seq![TokenView { position: from, command: m.command }] + rest);
                assert forall|k: int| 0 <= k < all.len() implies from <= (#[trigger] all[k]).position
                    && is_match(text, pattern, all[k]) by {
                    if k > 0 {
                        assert(all[k] == rest[k - 1]);
                    }
                }
                assert forall|i: int, j: int| 0 <= i < j < all.len() implies (
                #[trigger] all[i]).position < (#[trigger] all[j]).position by {
                    assert(all[j] == rest[j - 1]);
                    if i > 0 {
                        assert(all[i] == rest[i - 1]);
                    }
                }
            },
            None => {
                lemma_scan(text, pattern, from + 1);
            },
        }
    }
}

/// A merge holds the tokens of both streams and no others, and is ordered
/// where both streams are.
pub proof fn lemma_merge(a: Seq<TokenView>, b: Seq<TokenView>)
    ensures
        merge(a, b).len() == a.len() + b.len(),
        forall|k: int|
            0 <= k < merge(a, b).len() ==> a.contains(#[trigger] merge(a, b)[k]) || b.contains(
                merge(a, b)[k],
            ),
        forall|k: int| 0 <= k < a.len() ==> merge(a, b).contains(#[trigger] a[k]),
        forall|k: int| 0 <= k < b.len() ==> merge(a, b).contains(#[trigger] b[k]),
        ordered(a) && ordered(b) ==> ordered(merge(a, b)),
    decreases a.len() + b.len(),
{
    let all = merge(a, b);
    if a.len() == 0 {
        assert forall|k: int| 0 <= k < b.len() implies all.contains(#[trigger] b[k]) by {
            assert(all[k] == b[k]);
        }
        assert forall|k: int| 0 <= k < all.len() implies b.contains(#[trigger] all[k]) by {
            assert(b[k] == all[k]);
        }
    } else if b.len() == 0 {
        assert forall|k: int| 0 <= k < a.len() implies all.contains(#[trigger] a[k]) by {
            assert(all[k] == a[k]);
        }
        assert forall|k: int| 0 <= k < all.len() implies a.contains(#[trigger] all[k]) by {
            assert(a[k] == all[k]);
        }
    } else {
        let from_a = a[0].position <= b[0].position;
        let first = if from_a {
            a[0]
        } else {
            b[0]
        };
        let ra = if from_a {
            a.drop_first()
        } else {
            a
        };
        let rb = if from_a {
            b
        } else {
            b.drop_first()
        };
        let rest = merge(ra, rb);
        lemma_merge(ra, rb);
        assert(all == seq![first] + rest);
        assert(all[0] == first);
        assert forall|k: int| 0 <= k < all.len() implies a.contains(#[trigger] all[k])
            || b.contains(all[k]) by {
            if k == 0 {
                assert(a[0] == first || b[0] == first);
            } else {
                assert(all[k] == rest[k - 1]);
                if ra.contains(rest[k - 1]) {
                    let i = choose|i: int| 0 <= i < ra.len() && ra[i] == rest[k - 1];
                    if from_a {
                        assert(a[i + 1] == rest[k - 1]);
                    }
                } else {
                    let i = choose|i: int| 0 <= i < rb.len() && rb[i] == rest[k - 1];
                    if !from_a {
                        assert(b[i + 1] == rest[k - 1]);
                    }
                }
            }
        }
        assert forall|k: int| 0 <= k < a.len() implies all.contains(#[trigger] a[k]) by {
            if from_a && k == 0 {
            } else {
                let x = a[k];
                if from_a {
                    assert(ra[k - 1] == x);
                } else {
                    assert(ra[k] == x);
                }
                assert(rest.contains(x));
                let i = choose|i: int| 0 <= i < rest.len() && rest[i] == x;
                assert(all[i + 1] == x);
            }
        }
        assert forall|k: int| 0 <= k < b.len() implies all.contains(#[trigger] b[k]) by {
            if !from_a && k == 0 {
            } else {
                let x = b[k];
                if from_a {
                    assert(rb[k] == x);
                } else {
                    assert(rb[k - 1] == x);
                }
                assert(rest.contains(x));
                let i = choose|i: int| 0 <= i < rest.len() && rest[i] == x;
                assert(all[i + 1] == x);
            }
        }
        if ordered(a) && ordered(b) {
            assert(ordered(ra)) by {
                assert forall|i: int, j: int| 0 <= i < j < ra.len() implies (
                #[trigger] ra[i]).position <= (#[trigger] ra[j]).position by {
                    if from_a {
                        assert(ra[i] == a[i + 1] && ra[j] == a[j + 1]);
                    }
                }
            }
            assert(ordered(rb)) by {
                assert forall|i: int, j: int| 0 <= i < j < rb.len() implies (
                #[trigger] rb[i]).position <= (#[trigger] rb[j]).position by {
                    if !from_a {
                        assert(rb[i] == b[i + 1] && rb[j] == b[j + 1]);
                    }
                }
            }
            assert forall|i: int, j: int| 0 <= i < j < all.len() implies (
            #[trigger] all[i]).position <= (#[trigger] all[j]).position by {
                assert(all[j] == rest[j - 1]);
                if i == 0 {
                    let x = rest[j - 1];
                    if ra.contains(x) {
                        let k = choose|k: int| 0 <= k < ra.len() && ra[k] == x;
                        if from_a {
                            assert(a[k + 1] == x);
                            assert(a[0].position <= a[k + 1].position);
                        } else {
                            assert(a[k] == x);
                            assert(a[0].position <= a[k].position);
                        }
                    } else {
                        let k = choose|k: int| 0 <= k < rb.len() && rb[k] == x;
                        if from_a {
                            assert(b[k] == x);
                            assert(b[0].position <= b[k].position);
                        } else {
                            assert(b[k + 1] == x);
                            assert(b[0].position <= b[k + 1].position);
                        }
                    }
                } else {
                    assert(all[i] == rest[i - 1]);
                }
            }
        }
    }
}

/// Every token of the stream is an occurrence of a pattern in the text, and
/// every occurrence that the scan of a pattern reports is in the stream.
pub proof fn law_token_stream_is_the_occurrences(text: Seq<char>)
    ensures
        forall|k: int|
            0 <= k < token_stream(text).len() ==> is_occurrence(
                text,
                #[trigger] token_stream(text)[k],
            ),
        forall|pattern: Pattern, k: int|
            0 <= k < scan(text, pattern, 0).len() ==> token_stream(text).contains(
                #[trigger] scan(text, pattern, 0)[k],
            ),
        token_stream(text).len() == scan(text, Pattern::Next, 0).len() + scan(
            text,
            Pattern::Deck,
            0,
        ).len() + scan(text, Pattern::Model, 0).len() + scan(text, Pattern::Tag, 0).len() + scan(
            text,
            Pattern::Field,
            0,
        ).len() + scan(text, Pattern::FieldBlock, 0).len(),
{
    let next = scan(text, Pattern::Next, 0);
    let deck = scan(text, Pattern::Deck, 0);
    let model = scan(text, Pattern::Model, 0);
    let tag = scan(text, Pattern::Tag, 0);
    let field = scan(text, Pattern::Field, 0);
    let block = scan(text, Pattern::FieldBlock, 0);
    let m1 = merge(field, block);
    let m2 = merge(tag, m1);
    let m3 = merge(model, m2);
    let m4 = merge(deck, m3);
    let all = merge(next, m4);
    lemma_scan(text, Pattern::Next, 0);
    lemma_scan(text, Pattern::Deck, 0);
    lemma_scan(text, Pattern::Model, 0);
    lemma_scan(text, Pattern::Tag, 0);
    lemma_scan(text, Pattern::Field, 0);
    lemma_scan(text, Pattern::FieldBlock, 0);
    lemma_merge(field, block);
    lemma_merge(tag, m1);
    lemma_merge(model, m2);
    lemma_merge(deck, m3);
    lemma_merge(next, m4);
    assert forall|x: TokenView| m1.contains(x) implies is_occurrence(text, x) by {
        let k = choose|k: int| 0 <= k < m1.len() && m1[k] == x;
        if field.contains(x) {
            assert(is_match(text, Pattern::Field, x));
        } else {
            assert(is_match(text, Pattern::FieldBlock, x));
        }
    }
    assert forall|x: TokenView| m2.contains(x) implies is_occurrence(text, x) by {
        let k = choose|k: int| 0 <= k < m2.len() && m2[k] == x;
        if tag.contains(x) {
            assert(is_match(text, Pattern::Tag, x));
        }
    }
    assert forall|x: TokenView| m3.contains(x) implies is_occurrence(text, x) by {
        let k = choose|k: int| 0 <= k < m3.len() && m3[k] == x;
        if model.contains(x) {
            assert(is_match(text, Pattern::Model, x));
        }
    }
    assert forall|x: TokenView| m4.contains(x) implies is_occurrence(text, x) by {
        let k = choose|k: int| 0 <= k < m4.len() && m4[k] == x;
        if deck.contains(x) {
            assert(is_match(text, Pattern::Deck, x));
        }
    }
    assert forall|k: int| 0 <= k < all.len() implies is_occurrence(text, #[trigger] all[k]) by {
        if next.contains(all[k]) {
            assert(is_match(text, Pattern::Next, all[k]));
        } else {
            assert(m4.contains(all[k]));
        }
    }
    assert forall|pattern: Pattern, k: int| 0 <= k < scan(text, pattern, 0).len() implies all.contains(
        #[trigger] scan(text, pattern, 0)[k],
    ) by {
        let x = scan(text, pattern, 0)[k];
        match pattern {
            Pattern::Next => {},
            Pattern::Deck => {
                assert(m4.contains(x));
            },
            Pattern::Model => {
                assert(m3.contains(x));
                assert(m4.contains(x));
            },
            Pattern::Tag => {
                assert(m2.contains(x));
                assert(m3.contains(x));
                assert(m4.contains(x));
            },
            Pattern::Field => {
                assert(m1.contains(x));
                assert(m2.contains(x));
                assert(m3.contains(x));
                assert(m4.contains(x));
            },
            Pattern::FieldBlock => {
                assert(m1.contains(x));
                assert(m2.contains(x));
                assert(m3.contains(x));
                assert(m4.contains(x));
            },
        }
    }
}

/// Where an occurrence of a pattern ends.
pub open spec fn end_of(text: Seq<char>, pattern: Pattern, token: TokenView) -> int {
    match_at(text, pattern, token.position)->0.end
}

/// A scan misses no occurrence: whatever occurrence of the pattern starts at
/// or after `from` is reported, or starts inside an occurrence that is
/// reported.
pub proof fn law_scan_covers(text: Seq<char>, pattern: Pattern, from: int, p: int)
    requires
        0 <= from <= p,
        match_at(text, pattern, p) is Some,
    ensures
        exists|k: int|
            0 <= k < scan(text, pattern, from).len() && (#[trigger] scan(
                text,
                pattern,
                from,
            )[k]).position <= p < end_of(text, pattern, scan(text, pattern, from)[k]),
    decreases text.len() - from,
{
    lemma_match_bounds(text, pattern, p);
    lemma_match_bounds(text, pattern, from);
    let all = scan(text, pattern, from);
    match match_at(text, pattern, from) {
        Some(m) => {
            let rest = scan(text, pattern, m.end);
            assert(all == seq![TokenView { position: from, command: m.command }] + rest);
            if p < m.end {
                assert(all[0].position <= p < end_of(text, pattern, all[0]));
            } else {
                law_scan_covers(text, pattern, m.end, p);
                let k = choose|k: int|
                    0 <= k < rest.len() && (#[trigger] rest[k]).position <= p < end_of(
                        text,
                        pattern,
                        rest[k],
                    );
                assert(all[k + 1] == rest[k]);
                assert(all[k + 1].position <= p < end_of(text, pattern, all[k + 1]));
            }
        },
        None => {
            law_scan_covers(text, pattern, from + 1, p);
        },
    }
}

/// No two patterns have an occurrence at the same position: the order of the
/// stream never has to choose between two commands.
pub proof fn law_patterns_exclude_each_other(text: Seq<char>, p: int, a: Pattern, b: Pattern)
    requires
        a != b,
        match_at(text, a, p) is Some,
    ensures
        match_at(text, b, p) is None,
{
    reveal_strlit("\\next");
    reveal_strlit("\\deck{");
    reveal_strlit("\\model{");
    reveal_strlit("\\tag{");
    reveal_strlit("\\fields{");
    reveal_strlit("\\begin{field}{");
    if occurs_at(text, p, opener(b)) {
        assert(text.subrange(p, p + opener(a).len())[1] == opener(a)[1]);
        assert(text.subrange(p, p + opener(b).len())[1] == opener(b)[1]);
    }
}

/// The positions of `tokens` increase.
pub open spec fn strictly_ordered(tokens: Seq<TokenView>) -> bool {
    forall|i: int, j: int|
        0 <= i < j < tokens.len() ==> (#[trigger] tokens[i]).position < (
        #[trigger] tokens[j]).position
}

/// No token of `a` shares its position with a token of `b`.
pub open spec fn apart(a: Seq<TokenView>, b: Seq<TokenView>) -> bool {
    forall|i: int, j: int|
        0 <= i < a.len() && 0 <= j < b.len() ==> (#[trigger] a[i]).position != (
        #[trigger] b[j]).position
}

/// `token` is an occurrence of one of `patterns`.
pub open spec fn occurrence_of(text: Seq<char>, token: TokenView, patterns: Set<Pattern>) -> bool {
    exists|pattern: Pattern| patterns.contains(pattern) && is_match(text, pattern, token)
}

/// Every token of `tokens` is an occurrence of one of `patterns`.
pub open spec fn occurrences_of(text: Seq<char>, tokens: Seq<TokenView>, patterns: Set<Pattern>) -> bool {
    forall|k: int| 0 <= k < tokens.len() ==> occurrence_of(text, #[trigger] tokens[k], patterns)
}

/// Two streams with increasing positions and no position in common merge
/// into a stream with increasing positions.
pub proof fn lemma_merge_strict(a: Seq<TokenView>, b: Seq<TokenView>)
    requires
        strictly_ordered(a),
        strictly_ordered(b),
        apart(a, b),
    ensures
        strictly_ordered(merge(a, b)),
    decreases a.len() + b.len(),
{
    let all = merge(a, b);
    if a.len() > 0 && b.len() > 0 {
        let from_a = a[0].position <= b[0].position;
        let first = if from_a {
            a[0]
        } else {
            b[0]
        };
        let ra = if from_a {
            a.drop_first()
        } else {
            a
        };
        let rb = if from_a {
            b
        } else {
            b.drop_first()
        };
        let rest = merge(ra, rb);
        assert(strictly_ordered(ra)) by {
            assert forall|i: int, j: int| 0 <= i < j < ra.len() implies (
            #[trigger] ra[i]).position < (#[trigger] ra[j]).position by {
                if from_a {
                    assert(ra[i] == a[i + 1] && ra[j] == a[j + 1]);
                }
            }
        }
        assert(strictly_ordered(rb)) by {
            assert forall|i: int, j: int| 0 <= i < j < rb.len() implies (
            #[trigger] rb[i]).position < (#[trigger] rb[j]).position by {
                if !from_a {
                    assert(rb[i] == b[i + 1] && rb[j] == b[j + 1]);
                }
            }
        }
        assert(apart(ra, rb)) by {
            assert forall|i: int, j: int| 0 <= i < ra.len() && 0 <= j < rb.len() implies (
            #[trigger] ra[i]).position != (#[trigger] rb[j]).position by {
                if from_a {
                    assert(ra[i] == a[i + 1] && rb[j] == b[j]);
                } else {
                    assert(ra[i] == a[i] && rb[j] == b[j + 1]);
                }
            }
        }
        lemma_merge_strict(ra, rb);
        lemma_merge(ra, rb);
        assert(all == seq![first] + rest);
        assert(a[0].position != b[0].position);
        assert forall|i: int, j: int| 0 <= i < j < all.len() implies (#[trigger] all[i]).position
            < (#[trigger] all[j]).position by {
            assert(all[j] == rest[j - 1]);
            if i == 0 {
                let x = rest[j - 1];
                if ra.contains(x) {
                    let k = choose|k: int| 0 <= k < ra.len() && ra[k] == x;
                    if from_a {
                        assert(a[k + 1] == x);
                        assert(a[0].position < a[k + 1].position);
                    } else {
                        assert(a[k] == x);
                        assert(k == 0 || a[0].position < a[k].position);
                    }
                } else {
                    let k = choose|k: int| 0 <= k < rb.len() && rb[k] == x;
                    if from_a {
                        assert(b[k] == x);
                        assert(k == 0 || b[0].position < b[k].position);
                    } else {
                        assert(b[k + 1] == x);
                        assert(b[0].position < b[k + 1].position);
                    }
                }
            } else {
                assert(all[i] == rest[i - 1]);
            }
        }
    }
}

/// Streams of occurrences of different patterns have no position in common.
pub proof fn lemma_apart(
    text: Seq<char>,
    a: Seq<TokenView>,
    pattern: Pattern,
    b: Seq<TokenView>,
    others: Set<Pattern>,
)
    requires
        occurrences_of(text, a, set![pattern]),
        occurrences_of(text, b, others),
        !others.contains(pattern),
    ensures
        apart(a, b),
{
    assert forall|i: int, j: int| 0 <= i < a.len() && 0 <= j < b.len() implies (
    #[trigger] a[i]).position != (#[trigger] b[j]).position by {
        assert(occurrence_of(text, a[i], set![pattern]));
        assert(occurrence_of(text, b[j], others));
        let pa = choose|p: Pattern| set![pattern].contains(p) && is_match(text, p, a[i]);
        let pb = choose|p: Pattern| others.contains(p) && is_match(text, p, b[j]);
        if a[i].position == b[j].position {
            law_patterns_exclude_each_other(text, a[i].position, pa, pb);
        }
    }
}

/// A merge of occurrences is a stream of occurrences of the patterns of
/// both.
pub proof fn lemma_merge_occurrences(
    text: Seq<char>,
    a: Seq<TokenView>,
    of_a: Set<Pattern>,
    b: Seq<TokenView>,
    of_b: Set<Pattern>,
)
    requires
        occurrences_of(text, a, of_a),
        occurrences_of(text, b, of_b),
    ensures
        occurrences_of(text, merge(a, b), of_a.union(of_b)),
{
    lemma_merge(a, b);
    let all = merge(a, b);
    assert forall|k: int| 0 <= k < all.len() implies occurrence_of(
        text,
        #[trigger] all[k],
        of_a.union(of_b),
    ) by {
        if a.contains(all[k]) {
            let i = choose|i: int| 0 <= i < a.len() && a[i] == all[k];
            assert(occurrence_of(text, a[i], of_a));
            let p = choose|p: Pattern| of_a.contains(p) && is_match(text, p, a[i]);
            assert(of_a.union(of_b).contains(p) && is_match(text, p, all[k]));
        } else {
            let i = choose|i: int| 0 <= i < b.len() && b[i] == all[k];
            assert(occurrence_of(text, b[i], of_b));
            let p = choose|p: Pattern| of_b.contains(p) && is_match(text, p, b[i]);
            assert(of_a.union(of_b).contains(p) && is_match(text, p, all[k]));
        }
    }
}

/// The scan of a pattern is a stream of its occurrences with increasing
/// positions.
proof fn lemma_scan_stream(text: Seq<char>, pattern: Pattern)
    ensures
        strictly_ordered(scan(text, pattern, 0)),
        occurrences_of(text, scan(text, pattern, 0), set![pattern]),
{
    lemma_scan(text, pattern, 0);
    let tokens = scan(text, pattern, 0);
    assert forall|k: int| 0 <= k < tokens.len() implies occurrence_of(
        text,
        #[trigger] tokens[k],
        set![pattern],
    ) by {
        assert(set![pattern].contains(pattern) && is_match(text, pattern, tokens[k]));
    }
}

/// No two tokens of the stream share a position: the positions of the token
/// stream of a text increase.
pub proof fn law_token_positions_increase(text: Seq<char>)
    ensures
        strictly_ordered(token_stream(text)),
{
    let next = scan(text, Pattern::Next, 0);
    let deck = scan(text, Pattern::Deck, 0);
    let model = scan(text, Pattern::Model, 0);
    let tag = scan(text, Pattern::Tag, 0);
    let field = scan(text, Pattern::Field, 0);
    let block = scan(text, Pattern::FieldBlock, 0);
    lemma_scan_stream(text, Pattern::Next);
    lemma_scan_stream(text, Pattern::Deck);
    lemma_scan_stream(text, Pattern::Model);
    lemma_scan_stream(text, Pattern::Tag);
    lemma_scan_stream(text, Pattern::Field);
    lemma_scan_stream(text, Pattern::FieldBlock);
    let s1 = set![Pattern::Field].union(set![Pattern::FieldBlock]);
    let m1 = merge(field, block);
    lemma_apart(text, field, Pattern::Field, block, set![Pattern::FieldBlock]);
    lemma_merge_strict(field, block);
    lemma_merge_occurrences(text, field, set![Pattern::Field], block, set![Pattern::FieldBlock]);
    let s2 = set![Pattern::Tag].union(s1);
    let m2 = merge(tag, m1);
    lemma_apart(text, tag, Pattern::Tag, m1, s1);
    lemma_merge_strict(tag, m1);
    lemma_merge_occurrences(text, tag, set![Pattern::Tag], m1, s1);
    let s3 = set![Pattern::Model].union(s2);
    let m3 = merge(model, m2);
    lemma_apart(text, model, Pattern::Model, m2, s2);
    lemma_merge_strict(model, m2);
    lemma_merge_occurrences(text, model, set![Pattern::Model], m2, s2);
    let s4 = set![Pattern::Deck].union(s3);
    let m4 = merge(deck, m3);
    lemma_apart(text, deck, Pattern::Deck, m3, s3);
    lemma_merge_strict(deck, m3);
    lemma_merge_occurrences(text, deck, set![Pattern::Deck], m3, s3);
    lemma_apart(text, next, Pattern::Next, m4, s4);
    lemma_merge_strict(next, m4);
}

} // verus!
