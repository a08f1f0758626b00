//! The parser: a cursor that moves forward over the characters of a
//! document, and one function for each rule of the grammar.

use crate::dom::{comment, element, text, views, AttrMap, Node, Tree};
use crate::grammar::{
    attr_at, attr_value_at, attributes_at, closing_tag_open, comment_at, comment_close,
    comment_open, document, element_at, find_at_or_after, lemma_attr_at, lemma_attributes_at,
    lemma_find_at_or_after, lemma_node_advances, lemma_run_end_is, name_char, name_class,
    name_end, node_at, nodes_at, other_than, remaining, root_tag, starts_with_at, text_at,
    whitespace, whitespace_class, whitespace_end, Parsed,
};
use vstd::prelude::*;
use vstd::string::StrSliceExecFns;

verus! {

/// `String::push` of the standard library: the string grows by the one
/// character `ch`, which is appended at its end.
pub assume_specification[ String::push ](s: &mut String, ch: char)
    ensures
        final(s)@ == old(s)@.push(ch),
;

/// Why a document could not be parsed.
#[derive(Debug, Clone, Copy, PartialEq, Eq)]
pub enum ParseError {
    /// A character or a name that the grammar requires is missing, or the
    /// document ends too early.
    MalformedMarkup,
}

impl ParseError {
    /// A short description of the error.
    pub fn message(&self) -> (description: String)
        ensures
            description@ == "malformed markup"@,
    {
        "malformed markup".to_owned()
    }
}

/// Whether `c` is whitespace.
pub fn is_whitespace(c: char) -> (b: bool)
    ensures
        b == whitespace(c),
{
    ('\u{9}' <= c && c <= '\u{d}') || c == ' ' || c == '\u{85}' || c == '\u{a0}' || c
        == '\u{1680}' || ('\u{2000}' <= c && c <= '\u{200a}') || c == '\u{2028}' || c
        == '\u{2029}' || c == '\u{202f}' || c == '\u{205f}' || c == '\u{3000}'
}

/// Whether `c` may stand in a tag name or an attribute name.
pub fn is_name_char(c: char) -> (b: bool)
    ensures
        b == name_char(c),
{
    ('a' <= c && c <= 'z') || ('A' <= c && c <= 'Z') || ('0' <= c && c <= '9')
}

/// A parser as a mathematical value: the characters of the document and
/// the position of the next character to read.
pub struct Cursor {
    pub input: Seq<char>,
    pub pos: int,
}

impl Cursor {
    /// Whether this cursor is `before` or a later state of it: the input is
    /// the same and the position, which stays within the input, has not
    /// moved back.
    pub open spec fn follows(self, before: Cursor) -> bool {
        &&& self.input == before.input
        &&& before.pos <= self.pos <= self.input.len()
    }

    /// This cursor moved to `pos`.
    pub open spec fn at(self, pos: int) -> Cursor {
        Cursor { input: self.input, pos }
    }
}

/// `front`, followed by the nodes of `rest`.
spec fn prepend(front: Seq<Tree>, rest: Option<Parsed<Seq<Tree>>>) -> Option<
    Parsed<Seq<Tree>>,
> {
    match rest {
        Some(rest) => Some(Parsed { value: front + rest.value, next: rest.next }),
        None => None,
    }
}

/// The characters of `source`, in order.
fn characters(source: &str) -> (chars: Vec<char>)
    ensures
        chars@ == source@,
{
    let mut chars: Vec<char> = Vec::new();
    for c in it: source.chars()
        invariant
            chars@ == it.seq().take(it.index() as int),
    {
        chars.push(c);
    }
    chars
}

/// A cursor over the characters of a document. It only moves forward.
pub struct Parser {
    pos: usize,
    input: Vec<char>,
}

impl View for Parser {
    type V = Cursor;

    closed spec fn view(&self) -> Cursor {
        Cursor { input: self.input@, pos: self.pos as int }
    }
}

impl Parser {
    #[verifier::type_invariant]
    spec fn within_input(self) -> bool {
        self.pos <= self.input@.len()
    }

    /// A parser at the start of `source`.
    pub fn new(source: String) -> (parser: Parser)
        ensures
            parser@ == (Cursor { input: source@, pos: 0 }),
    {
        Parser { pos: 0, input: characters(source.as_str()) }
    }

    /// The current character.
    pub fn next_char(&self) -> (c: char)
        requires
            self@.pos < self@.input.len(),
        ensures
            c == self@.input[self@.pos],
    {
        self.input[self.pos]
    }

    /// Whether `s` stands at the current position.
    pub fn starts_with(&self, s: &str) -> (found: bool)
        ensures
            found == starts_with_at(self@.input, self@.pos, s@),
    {
        proof {
            use_type_invariant(self);
        }
        let n = s.unicode_len();
        if n > self.input.len() - self.pos {
            return false;
        }
        let mut i: usize = 0;
        while i < n
            invariant
                n == s@.len(),
                self.pos + n <= self.input.len(),
                i <= n,
                forall|j: int| 0 <= j < i ==> self.input@[self.pos + j] == s@[j],
            decreases n - i,
        {
            if self.input[self.pos + i] != s.get_char(i) {
                assert(self.input@.subrange(self.pos as int, self.pos + n)[i as int] != s@[i as int]);
                return false;
            }
            i = i + 1;
        }
        assert(self.input@.subrange(self.pos as int, self.pos + n) =~= s@);
        true
    }

    /// Whether the whole input has been read.
    pub fn eof(&self) -> (at_end: bool)
        ensures
            at_end == (self@.pos >= self@.input.len()),
            0 <= self@.pos <= self@.input.len(),
    {
        proof {
            use_type_invariant(self);
        }
        self.pos >= self.input.len()
    }

    /// Reads the current character and moves on by one character. Fails at
    /// the end of the input.
    pub fn consume_char(&mut self) -> (r: Result<char, ParseError>)
        ensures
            match r {
                Ok(c) => {
                    &&& 0 <= old(self)@.pos < old(self)@.input.len()
                    &&& c == old(self)@.input[old(self)@.pos]
                    &&& final(self)@ == old(self)@.at(old(self)@.pos + 1)
                },
                Err(_) => old(self)@.pos == old(self)@.input.len() && final(self)@ == old(self)@,
            },
    {
        proof {
            use_type_invariant(&*self);
        }
        if self.pos >= self.input.len() {
            return Err(ParseError::MalformedMarkup);
        }
        let c = self.input[self.pos];
        self.pos = self.pos + 1;
        Ok(c)
    }

    /// Reads the current character, which has to be `expected`.
    fn expect_char(&mut self, expected: char) -> (r: Result<(), ParseError>)
        ensures
            final(self)@.follows(old(self)@),
            match r {
                Ok(_) => {
                    &&& old(self)@.pos < old(self)@.input.len()
                    &&& old(self)@.input[old(self)@.pos] == expected
                    &&& final(self)@.pos == old(self)@.pos + 1
                },
                Err(_) => !(old(self)@.pos < old(self)@.input.len() && old(self)@.input[old(
                    self,
                )@.pos] == expected),
            },
    {
        let c = self.consume_char()?;
        if c == expected {
            Ok(())
        } else {
            Err(ParseError::MalformedMarkup)
        }
    }

    /// Reads the characters of `literal`, one by one, which have to stand
    /// at the current position.
    fn expect_str(&mut self, literal: &str) -> (r: Result<(), ParseError>)
        ensures
            final(self)@.follows(old(self)@),
            match r {
                Ok(_) => {
                    &&& starts_with_at(old(self)@.input, old(self)@.pos, literal@)
                    &&& final(self)@.pos == old(self)@.pos + literal@.len()
                },
                Err(_) => !starts_with_at(old(self)@.input, old(self)@.pos, literal@),
            },
    {
        proof {
            use_type_invariant(&*self);
        }
        let ghost s = self@.input;
        let ghost start = self@.pos;
        let n = literal.unicode_len();
        let mut i: usize = 0;
        while i < n
            invariant
                n == literal@.len(),
                i <= n,
                self@.follows(old(self)@),
                s == old(self)@.input,
                start == old(self)@.pos,
                self@.pos == start + i,
                forall|j: int| 0 <= j < i ==> s[start + j] == literal@[j],
            decreases n - i,
        {
            match self.expect_char(literal.get_char(i)) {
                Ok(_) => {},
                Err(e) => {
                    proof {
                        if start + n <= s.len() {
                            assert(s.subrange(start, start + n)[i as int] != literal@[i as int]);
                        }
                    }
                    return Err(e);
                },
            }
            i = i + 1;
        }
        assert(s.subrange(start, start + n) =~= literal@);
        Ok(())
    }

    /// Reads characters for as long as `test` accepts the current one, and
    /// returns them. Stops at the end of the input.
    pub fn consume_while_char<F>(&mut self, test: F) -> (consumed: String) where
        F: Fn(char) -> bool,

        requires
            forall|i: int|
                old(self)@.pos <= i < old(self)@.input.len() ==> call_requires(
                    test,
                    (#[trigger] old(self)@.input[i],),
                ),
        ensures
            final(self)@.follows(old(self)@),
            consumed@ == old(self)@.input.subrange(old(self)@.pos, final(self)@.pos),
            forall|i: int|
                old(self)@.pos <= i < final(self)@.pos ==> call_ensures(
                    test,
                    (#[trigger] old(self)@.input[i],),
                    true,
                ),
            final(self)@.pos < old(self)@.input.len() ==> call_ensures(
                test,
                (old(self)@.input[final(self)@.pos],),
                false,
            ),
    {
        proof {
            use_type_invariant(&*self);
        }
        let ghost s = self@.input;
        let ghost start = self@.pos;
        let mut consumed = String::new();
        loop
            invariant
                self@.follows(old(self)@),
                s == old(self)@.input,
                start == old(self)@.pos,
                0 <= start,
                consumed@ == s.subrange(start, self@.pos),
                forall|i: int| start <= i < s.len() ==> call_requires(test, (#[trigger] s[i],)),
                forall|i: int|
                    start <= i < self@.pos ==> call_ensures(test, (#[trigger] s[i],), true),
            ensures
                self@.pos < s.len() ==> call_ensures(test, (s[self@.pos],), false),
            decreases remaining(self@.input, self@.pos),
        {
            if self.pos >= self.input.len() {
                break;
            }
            let c = self.input[self.pos];
            if !test(c) {
                break;
            }
            consumed.push(c);
            self.pos = self.pos + 1;
            assert(consumed@ =~= s.subrange(start, self@.pos));
        }
        consumed
    }

    /// Reads characters up to the first place where `literal` stands, and
    /// returns them. The literal itself is not read. Fails where the input
    /// ends before the literal is found.
    pub fn consume_while_str(&mut self, literal: &str) -> (r: Result<String, ParseError>)
        ensures
            final(self)@.follows(old(self)@),
            match r {
                Ok(consumed) => {
                    &&& find_at_or_after(old(self)@.input, old(self)@.pos, literal@) == Some(
                        final(self)@.pos,
                    )
                    &&& consumed@ == old(self)@.input.subrange(old(self)@.pos, final(self)@.pos)
                },
                Err(_) => {
                    &&& find_at_or_after(old(self)@.input, old(self)@.pos, literal@) is None
                    &&& final(self)@.pos == old(self)@.input.len()
                },
            },
    {
        proof {
            use_type_invariant(&*self);
        }
        let ghost s = self@.input;
        let ghost start = self@.pos;
        let mut consumed = String::new();
        loop
            invariant
                self@.follows(old(self)@),
                s == old(self)@.input,
                start == old(self)@.pos,
                0 <= start,
                consumed@ == s.subrange(start, self@.pos),
                find_at_or_after(s, start, literal@) == find_at_or_after(s, self@.pos, literal@),
            ensures
                find_at_or_after(s, start, literal@) == Some(self@.pos),
            decreases remaining(self@.input, self@.pos),
        {
            if self.starts_with(literal) {
                break;
            }
            match self.consume_char() {
                Ok(c) => {
                    consumed.push(c);
                    assert(consumed@ =~= s.subrange(start, self@.pos));
                },
                Err(e) => {
                    return Err(e);
                },
            }
        }
        Ok(consumed)
    }

    /// Skips whitespace.
    pub fn consume_whitespace(&mut self)
        ensures
            final(self)@.follows(old(self)@),
            final(self)@.pos == whitespace_end(old(self)@.input, old(self)@.pos),
    {
        proof {
            use_type_invariant(&*self);
        }
        let ghost s = self@.input;
        let ghost start = self@.pos;
        self.consume_while_char(is_whitespace);
        proof {
            lemma_run_end_is(s, start, whitespace_class(), self@.pos);
        }
    }

    /// Reads a tag name or an attribute name. The name may be empty.
    pub fn parse_tag_name(&mut self) -> (name: String)
        ensures
            final(self)@.follows(old(self)@),
            final(self)@.pos == name_end(old(self)@.input, old(self)@.pos),
            name@ == old(self)@.input.subrange(old(self)@.pos, final(self)@.pos),
    {
        proof {
            use_type_invariant(&*self);
        }
        let ghost s = self@.input;
        let ghost start = self@.pos;
        let name = self.consume_while_char(is_name_char);
        proof {
            lemma_run_end_is(s, start, name_class(), self@.pos);
        }
        name
    }

    /// Reads one node: a comment, an element or a text.
    pub fn parse_node(&mut self) -> (r: Result<Node, ParseError>)
        ensures
            final(self)@.follows(old(self)@),
            match r {
                Ok(node) => node_at(old(self)@.input, old(self)@.pos) == Some(
                    Parsed { value: node@, next: final(self)@.pos },
                ),
                Err(_) => node_at(old(self)@.input, old(self)@.pos) is None,
            },
        decreases remaining(old(self)@.input, old(self)@.pos), 1int,
    {
        proof {
            reveal_strlit("<!--");
            assert("<!--"@ =~= comment_open());
        }
        if self.starts_with("<!--") {
            self.parse_comment()
        } else if self.eof() {
            Err(ParseError::MalformedMarkup)
        } else if self.next_char() == '<' {
            self.parse_element()
        } else {
            Ok(self.parse_text())
        }
    }

    /// Reads a comment.
    pub fn parse_comment(&mut self) -> (r: Result<Node, ParseError>)
        ensures
            final(self)@.follows(old(self)@),
            match r {
                Ok(node) => comment_at(old(self)@.input, old(self)@.pos) == Some(
                    Parsed { value: node@, next: final(self)@.pos },
                ),
                Err(_) => comment_at(old(self)@.input, old(self)@.pos) is None,
            },
    {
        proof {
            use_type_invariant(&*self);
            reveal_strlit("<!--");
            reveal_strlit("-->");
            assert("<!--"@ =~= comment_open());
            assert("-->"@ =~= comment_close());
        }
        let ghost s = self@.input;
        self.expect_str("<!--")?;
        let ghost body = self@.pos;
        let data = self.consume_while_str("-->")?;
        proof {
            lemma_find_at_or_after(s, body, comment_close());
        }
        self.expect_str("-->")?;
        Ok(comment(data))
    }

    /// Reads a text, which ends before the next `<`. The text may be empty.
    pub fn parse_text(&mut self) -> (node: Node)
        ensures
            final(self)@.follows(old(self)@),
            text_at(old(self)@.input, old(self)@.pos) == (Parsed {
                value: node@,
                next: final(self)@.pos,
            }),
    {
        proof {
            use_type_invariant(&*self);
        }
        let ghost s = self@.input;
        let ghost start = self@.pos;
        let before_tag = |c: char| -> (b: bool) ensures b == (c != '<') { c != '<' };
        let data = self.consume_while_char(before_tag);
        proof {
            lemma_run_end_is(s, start, other_than('<'), self@.pos);
        }
        text(data)
    }

    /// Reads an element: its opening tag, its children and its closing tag.
    /// Elements may nest to any depth; each level of nesting takes one
    /// level of recursion.
    pub fn parse_element(&mut self) -> (r: Result<Node, ParseError>)
        ensures
            final(self)@.follows(old(self)@),
            match r {
                Ok(node) => element_at(old(self)@.input, old(self)@.pos) == Some(
                    Parsed { value: node@, next: final(self)@.pos },
                ),
                Err(_) => element_at(old(self)@.input, old(self)@.pos) is None,
            },
        decreases remaining(old(self)@.input, old(self)@.pos), 0int,
    {
        proof {
            use_type_invariant(&*self);
            reveal_strlit("</");
            assert("</"@ =~= closing_tag_open());
        }
        let ghost s = self@.input;
        self.expect_char('<')?;
        let tag_name = self.parse_tag_name();
        proof {
            lemma_attributes_at(s, self@.pos, Map::empty());
        }
        let attrs = self.parse_attributes()?;
        self.expect_char('>')?;
        let children = self.parse_nodes()?;
        self.expect_str("</")?;
        let closing_name = self.parse_tag_name();
        if !(closing_name == tag_name) {
            return Err(ParseError::MalformedMarkup);
        }
        self.expect_char('>')?;
        Ok(element(tag_name, attrs, children))
    }

    /// Reads one attribute: a name, `=`, and a quoted value.
    pub fn parse_attr(&mut self) -> (r: Result<(String, String), ParseError>)
        ensures
            final(self)@.follows(old(self)@),
            match r {
                Ok(attr) => attr_at(old(self)@.input, old(self)@.pos) == Some(
                    Parsed { value: (attr.0@, attr.1@), next: final(self)@.pos },
                ),
                Err(_) => attr_at(old(self)@.input, old(self)@.pos) is None,
            },
    {
        proof {
            use_type_invariant(&*self);
        }
        let name = self.parse_tag_name();
        self.expect_char('=')?;
        let value = self.parse_attr_value()?;
        Ok((name, value))
    }

    /// Reads a quoted value. The quotes are not part of the value.
    pub fn parse_attr_value(&mut self) -> (r: Result<String, ParseError>)
        ensures
            final(self)@.follows(old(self)@),
            match r {
                Ok(value) => attr_value_at(old(self)@.input, old(self)@.pos) == Some(
                    Parsed { value: value@, next: final(self)@.pos },
                ),
                Err(_) => attr_value_at(old(self)@.input, old(self)@.pos) is None,
            },
    {
        proof {
            use_type_invariant(&*self);
        }
        let ghost s = self@.input;
        let open_quote = self.consume_char()?;
        if open_quote != '"' && open_quote != '\'' {
            return Err(ParseError::MalformedMarkup);
        }
        let ghost start = self@.pos;
        let in_value = |c: char| -> (b: bool) ensures b == (c != open_quote) { c != open_quote };
        let value = self.consume_while_char(in_value);
        proof {
            lemma_run_end_is(s, start, other_than(open_quote), self@.pos);
        }
        self.expect_char(open_quote)?;
        Ok(value)
    }

    /// Reads the attributes of an opening tag, up to the `>` that ends the
    /// tag. Of two attributes with one name the later one stays.
    pub fn parse_attributes(&mut self) -> (r: Result<AttrMap, ParseError>)
        ensures
            final(self)@.follows(old(self)@),
            match r {
                Ok(attrs) => attributes_at(old(self)@.input, old(self)@.pos, Map::empty())
                    == Some(Parsed { value: attrs@, next: final(self)@.pos }),
                Err(_) => attributes_at(old(self)@.input, old(self)@.pos, Map::empty()) is None,
            },
    {
        proof {
            use_type_invariant(&*self);
        }
        let ghost s = self@.input;
        let ghost start = self@.pos;
        let mut attributes = AttrMap::new();
        loop
            invariant
                self@.follows(old(self)@),
                s == old(self)@.input,
                start == old(self)@.pos,
                0 <= start,
                attributes_at(s, start, Map::empty()) == attributes_at(
                    s,
                    self@.pos,
                    attributes@,
                ),
            ensures
                attributes_at(s, start, Map::empty()) == Some(
                    Parsed { value: attributes@, next: self@.pos },
                ),
            decreases remaining(self@.input, self@.pos),
        {
            self.consume_whitespace();
            if self.eof() {
                return Err(ParseError::MalformedMarkup);
            }
            if self.next_char() == '>' {
                break;
            }
            proof {
                lemma_attr_at(s, self@.pos);
            }
            match self.parse_attr() {
                Ok(attr) => {
                    attributes.insert(attr.0, attr.1);
                },
                Err(e) => {
                    return Err(e);
                },
            }
        }
        Ok(attributes)
    }

    /// Reads sibling nodes up to the end of the input or the next closing
    /// tag.
    pub fn parse_nodes(&mut self) -> (r: Result<Vec<Node>, ParseError>)
        ensures
            final(self)@.follows(old(self)@),
            match r {
                Ok(nodes) => nodes_at(old(self)@.input, old(self)@.pos) == Some(
                    Parsed { value: views(nodes@), next: final(self)@.pos },
                ),
                Err(_) => nodes_at(old(self)@.input, old(self)@.pos) is None,
            },
        decreases remaining(old(self)@.input, old(self)@.pos), 2int,
    {
        proof {
            use_type_invariant(&*self);
            reveal_strlit("</");
            assert("</"@ =~= closing_tag_open());
        }
        let ghost s = self@.input;
        let ghost start = self@.pos;
        let mut nodes: Vec<Node> = Vec::new();
        proof {
            let rest = nodes_at(s, start);
            if rest is Some {
                assert(views(nodes@) + rest->0.value =~= rest->0.value);
            }
        }
        loop
            invariant_except_break
                nodes_at(s, start) == prepend(views(nodes@), nodes_at(s, self@.pos)),
            invariant
                self@.follows(old(self)@),
                s == old(self)@.input,
                start == old(self)@.pos,
                0 <= start,
                "</"@ == closing_tag_open(),
            ensures
                nodes_at(s, start) == Some(Parsed { value: views(nodes@), next: self@.pos }),
            decreases remaining(self@.input, self@.pos),
        {
            let ghost before = self@.pos;
            let ghost front = views(nodes@);
            self.consume_whitespace();
            if self.eof() || self.starts_with("</") {
                proof {
                    assert(front + Seq::<Tree>::empty() =~= front);
                }
                break;
            }
            proof {
                lemma_node_advances(s, self@.pos);
            }
            match self.parse_node() {
                Ok(node) => {
                    nodes.push(node);
                    proof {
                        let rest = nodes_at(s, self@.pos);
                        assert(views(nodes@) =~= front + seq![node@]);
                        if rest is Some {
                            assert(front + (seq![node@] + rest->0.value) =~= (front + seq![
                                node@,
                            ]) + rest->0.value);
                        }
                    }
                },
                Err(e) => {
                    return Err(e);
                },
            }
        }
        Ok(nodes)
    }
}

/// Parses the document `source` and returns its root: the one top-level
/// node where there is exactly one, else an element named `html` whose
/// children are the top-level nodes. Fails where the markup is malformed.
pub fn parse(source: String) -> (r: Result<Node, ParseError>)
    ensures
        match r {
            Ok(root) => document(source@) == Some(root@),
            Err(_) => document(source@) is None,
        },
{
    let mut parser = Parser::new(source);
    let mut nodes = parser.parse_nodes()?;
    if nodes.len() == 1 {
        Ok(nodes.swap_remove(0))
    } else {
        proof {
            reveal_strlit("html");
            assert("html"@ =~= root_tag());
        }
        Ok(element("html".to_owned(), AttrMap::new(), nodes))
    }
}

/// Parsing is a function of the text alone: two results for the same text
/// are both failures, or both are trees that are equal.
pub proof fn lemma_parse_is_deterministic(
    source: Seq<char>,
    first: Result<Node, ParseError>,
    second: Result<Node, ParseError>,
)
    requires
        match first {
            Ok(root) => document(source) == Some(root@),
            Err(_) => document(source) is None,
        },
        match second {
            Ok(root) => document(source) == Some(root@),
            Err(_) => document(source) is None,
        },
    ensures
        first is Ok <==> second is Ok,
        first is Ok ==> first->Ok_0@ == second->Ok_0@,
        first is Err ==> first->Err_0 == second->Err_0,
{
}

} // verus!
