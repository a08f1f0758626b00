//! The grammar of the markup language, as functions on the characters of a
//! document. Positions count characters, not bytes. The parser is proved
//! against these definitions.

use crate::dom::Tree;
use vstd::prelude::*;

verus! {

/// What a grammar rule yields where it applies: the value it read and the
/// position of the first character after it.
pub struct Parsed<T> {
    pub value: T,
    pub next: int,
}

/// The characters with the Unicode property White_Space.
pub open spec fn whitespace(c: char) -> bool {
    ||| ('\u{9}' <= c && c <= '\u{d}')
    ||| c == ' '
    ||| c == '\u{85}'
    ||| c == '\u{a0}'
    ||| c == '\u{1680}'
    ||| ('\u{2000}' <= c && c <= '\u{200a}')
    ||| c == '\u{2028}'
    ||| c == '\u{2029}'
    ||| c == '\u{202f}'
    ||| c == '\u{205f}'
    ||| c == '\u{3000}'
}

/// The characters of a tag name or an attribute name: ASCII letters and
/// digits.
pub open spec fn name_char(c: char) -> bool {
    ||| ('a' <= c && c <= 'z')
    ||| ('A' <= c && c <= 'Z')
    ||| ('0' <= c && c <= '9')
}

/// The class of whitespace characters.
pub open spec fn whitespace_class() -> spec_fn(char) -> bool {
    |c: char| whitespace(c)
}

/// The class of name characters.
pub open spec fn name_class() -> spec_fn(char) -> bool {
    |c: char| name_char(c)
}

/// The class of all characters but `stop`.
pub open spec fn other_than(stop: char) -> spec_fn(char) -> bool {
    |c: char| c != stop
}

/// `<!--`, which opens a comment.
pub open spec fn comment_open() -> Seq<char> {
    seq!['<', '!', '-', '-']
}

/// `-->`, which closes a comment.
pub open spec fn comment_close() -> Seq<char> {
    seq!['-', '-', '>']
}

/// `</`, which opens a closing tag.
pub open spec fn closing_tag_open() -> Seq<char> {
    seq!['<', '/']
}

/// `html`, the name of the element that wraps a document without a single
/// root.
pub open spec fn root_tag() -> Seq<char> {
    seq!['h', 't', 'm', 'l']
}

/// How many characters stand at or after `pos`.
pub open spec fn remaining(s: Seq<char>, pos: int) -> nat {
    if pos <= s.len() {
        (s.len() - pos) as nat
    } else {
        0
    }
}

/// The end of the longest run of characters of `class` that starts at `pos`:
/// the position of the first character at or after `pos` that is not in
/// `class`, or the end of `s`.
pub open spec fn run_end(s: Seq<char>, pos: int, class: spec_fn(char) -> bool) -> int
    decreases s.len() - pos,
{
    if 0 <= pos < s.len() && class(s[pos]) {
        run_end(s, pos + 1, class)
    } else {
        pos
    }
}

/// Whether `literal` stands in `s` at `pos`.
pub open spec fn starts_with_at(s: Seq<char>, pos: int, literal: Seq<char>) -> bool {
    &&& 0 <= pos
    &&& pos + literal.len() <= s.len()
    &&& s.subrange(pos, pos + literal.len()) =~= literal
}

/// The first position at or after `pos` at which `literal` stands in `s`,
/// or `None` where it stands at none.
pub open spec fn find_at_or_after(s: Seq<char>, pos: int, literal: Seq<char>) -> Option<int>
    decreases remaining(s, pos),
{
    if starts_with_at(s, pos, literal) {
        Some(pos)
    } else if pos >= s.len() {
        None
    } else {
        find_at_or_after(s, pos + 1, literal)
    }
}

/// A run ends at or after its start and within `s`; all characters of the
/// run are in `class`, and the character at its end, if there is one, is
/// not.
pub proof fn lemma_run_end(s: Seq<char>, pos: int, class: spec_fn(char) -> bool)
    ensures
        pos <= run_end(s, pos, class),
        pos <= s.len() ==> run_end(s, pos, class) <= s.len(),
        forall|i: int|
            pos <= i < run_end(s, pos, class) ==> 0 <= i < s.len() && class(#[trigger] s[i]),
        0 <= run_end(s, pos, class) < s.len() ==> !class(s[run_end(s, pos, class)]),
    decreases s.len() - pos,
{
    if 0 <= pos < s.len() && class(s[pos]) {
        lemma_run_end(s, pos + 1, class);
    }
}

/// A position is the end of the run from `pos` if all characters between
/// the two are in `class` and the character at it, if there is one, is not.
pub proof fn lemma_run_end_is(s: Seq<char>, pos: int, class: spec_fn(char) -> bool, end: int)
    requires
        0 <= pos <= end <= s.len(),
        forall|i: int| pos <= i < end ==> class(#[trigger] s[i]),
        end < s.len() ==> !class(s[end]),
    ensures
        run_end(s, pos, class) == end,
    decreases end - pos,
{
    if pos < end {
        assert(class(s[pos]));
        lemma_run_end_is(s, pos + 1, class, end);
    }
}

/// What `find_at_or_after` finds is the first place at or after `pos` where
/// `literal` stands; it finds none only where there is none.
pub proof fn lemma_find_at_or_after(s: Seq<char>, pos: int, literal: Seq<char>)
    ensures
        match find_at_or_after(s, pos, literal) {
            Some(at) => {
                &&& pos <= at
                &&& starts_with_at(s, at, literal)
                &&& forall|i: int| pos <= i < at ==> !starts_with_at(s, i, literal)
            },
            None => forall|i: int| pos <= i ==> !starts_with_at(s, i, literal),
        },
    decreases remaining(s, pos),
{
    if !starts_with_at(s, pos, literal) && pos < s.len() {
        lemma_find_at_or_after(s, pos + 1, literal);
    }
}

/// The end of the whitespace that starts at `pos`.
pub open spec fn whitespace_end(s: Seq<char>, pos: int) -> int {
    run_end(s, pos, whitespace_class())
}

/// The end of the name that starts at `pos`. The name may be empty.
pub open spec fn name_end(s: Seq<char>, pos: int) -> int {
    run_end(s, pos, name_class())
}

/// The text node at `pos`: the characters up to the next `<` or the end of
/// `s`. The text may be empty.
pub open spec fn text_at(s: Seq<char>, pos: int) -> Parsed<Tree> {
    let end = run_end(s, pos, other_than('<'));
    Parsed { value: Tree::Text(s.subrange(pos, end)), next: end }
}

/// The comment at `pos`: `<!--`, then the characters up to the first `-->`,
/// then that `-->`.
pub open spec fn comment_at(s: Seq<char>, pos: int) -> Option<Parsed<Tree>> {
    let body = pos + comment_open().len();
    if starts_with_at(s, pos, comment_open()) {
        match find_at_or_after(s, body, comment_close()) {
            Some(close) => Some(
                Parsed {
                    value: Tree::Comment(s.subrange(body, close)),
                    next: close + comment_close().len(),
                },
            ),
            None => None,
        }
    } else {
        None
    }
}

/// The quoted value at `pos`: a `"` or a `'`, then the characters up to
/// the next quote of the same kind, then that quote.
pub open spec fn attr_value_at(s: Seq<char>, pos: int) -> Option<Parsed<Seq<char>>> {
    if 0 <= pos < s.len() && (s[pos] == '"' || s[pos] == '\'') {
        let close = run_end(s, pos + 1, other_than(s[pos]));
        if close < s.len() {
            Some(Parsed { value: s.subrange(pos + 1, close), next: close + 1 })
        } else {
            None
        }
    } else {
        None
    }
}

/// The attribute at `pos`: a name, `=`, and a quoted value.
pub open spec fn attr_at(s: Seq<char>, pos: int) -> Option<Parsed<(Seq<char>, Seq<char>)>> {
    let equals = name_end(s, pos);
    if 0 <= pos && equals < s.len() && s[equals] == '=' {
        match attr_value_at(s, equals + 1) {
            Some(quoted) => Some(
                Parsed { value: (s.subrange(pos, equals), quoted.value), next: quoted.next },
            ),
            None => None,
        }
    } else {
        None
    }
}

/// An attribute ends after the place where it starts.
pub proof fn lemma_attr_at(s: Seq<char>, pos: int)
    ensures
        attr_at(s, pos) matches Some(attr) ==> pos + 3 <= attr.next <= s.len(),
{
    lemma_run_end(s, pos, name_class());
    let equals = name_end(s, pos);
    if 0 <= equals < s.len() {
        lemma_run_end(s, equals + 2, other_than(s[equals + 1]));
    }
}

/// The attributes of an opening tag from `pos` on, up to the `>` that ends
/// the tag: `seen`, to which each attribute is added in the order in which
/// it stands, so that of two attributes with one name the later one stays.
/// Whitespace may stand before each attribute and before the `>`. The
/// position that comes with the attributes is that of the `>`.
pub open spec fn attributes_at(s: Seq<char>, pos: int, seen: Map<Seq<char>, Seq<char>>) -> Option<
    Parsed<Map<Seq<char>, Seq<char>>>,
>
    decreases remaining(s, pos),
    via attributes_at_decreases
{
    let start = whitespace_end(s, pos);
    if start < 0 || start >= s.len() {
        None
    } else if s[start] == '>' {
        Some(Parsed { value: seen, next: start })
    } else {
        match attr_at(s, start) {
            Some(attr) => attributes_at(s, attr.next, seen.insert(attr.value.0, attr.value.1)),
            None => None,
        }
    }
}

#[via_fn]
proof fn attributes_at_decreases(s: Seq<char>, pos: int, seen: Map<Seq<char>, Seq<char>>) {
    lemma_run_end(s, pos, whitespace_class());
    lemma_attr_at(s, whitespace_end(s, pos));
}

/// Where the attributes of a tag can be read, they end at a `>` at or after
/// the place where they start.
pub proof fn lemma_attributes_at(s: Seq<char>, pos: int, seen: Map<Seq<char>, Seq<char>>)
    ensures
        attributes_at(s, pos, seen) matches Some(attrs) ==> pos <= attrs.next < s.len()
            && s[attrs.next] == '>',
    decreases remaining(s, pos),
{
    lemma_run_end(s, pos, whitespace_class());
    let start = whitespace_end(s, pos);
    if 0 <= start < s.len() && s[start] != '>' {
        lemma_attr_at(s, start);
        match attr_at(s, start) {
            Some(attr) => {
                lemma_attributes_at(s, attr.next, seen.insert(attr.value.0, attr.value.1));
            },
            None => {},
        }
    }
}

/// Attributes that stand later override those that were seen before: the
/// attributes read from `pos` on top of `seen` are those read from `pos` on
/// their own, laid over `seen`.
pub proof fn lemma_later_attributes_win(s: Seq<char>, pos: int, seen: Map<Seq<char>, Seq<char>>)
    ensures
        match attributes_at(s, pos, Map::empty()) {
            Some(alone) => attributes_at(s, pos, seen) == Some(
                Parsed { value: seen.union_prefer_right(alone.value), next: alone.next },
            ),
            None => attributes_at(s, pos, seen) is None,
        },
    decreases remaining(s, pos),
{
    let none = Map::<Seq<char>, Seq<char>>::empty();
    lemma_run_end(s, pos, whitespace_class());
    let start = whitespace_end(s, pos);
    if 0 <= start < s.len() {
        if s[start] == '>' {
            assert(seen.union_prefer_right(none) =~= seen);
        } else {
            lemma_attr_at(s, start);
            match attr_at(s, start) {
                Some(attr) => {
                    let name = attr.value.0;
                    let value = attr.value.1;
                    lemma_later_attributes_win(s, attr.next, seen.insert(name, value));
                    lemma_later_attributes_win(s, attr.next, none.insert(name, value));
                    match attributes_at(s, attr.next, none) {
                        Some(rest) => {
                            assert(seen.insert(name, value).union_prefer_right(rest.value)
                                =~= seen.union_prefer_right(
                                none.insert(name, value).union_prefer_right(rest.value),
                            ));
                        },
                        None => {},
                    }
                },
                None => {},
            }
        }
    }
}

/// The kind of quote does not matter. A value between two double quotes
/// that holds no quote of either kind is read as it stands, and it is read
/// the same where both double quotes are replaced by single quotes.
pub proof fn lemma_quote_style(s: Seq<char>, pos: int, close: int)
    requires
        0 <= pos < close < s.len(),
        s[pos] == '"',
        s[close] == '"',
        forall|i: int| pos < i < close ==> s[i] != '"' && s[i] != '\'',
    ensures
        attr_value_at(s, pos) == Some(
            Parsed { value: s.subrange(pos + 1, close), next: close + 1 },
        ),
        attr_value_at(s.update(pos, '\'').update(close, '\''), pos) == attr_value_at(s, pos),
{
    let single = s.update(pos, '\'').update(close, '\'');
    lemma_run_end_is(s, pos + 1, other_than('"'), close);
    lemma_run_end_is(single, pos + 1, other_than('\''), close);
    assert(single.subrange(pos + 1, close) =~= s.subrange(pos + 1, close));
}

/// The node at `pos`: a comment where `<!--` stands there, else an element
/// where `<` stands there, else a text. There is no node at the end of `s`.
pub open spec fn node_at(s: Seq<char>, pos: int) -> Option<Parsed<Tree>>
    decreases remaining(s, pos), 1int,
{
    if starts_with_at(s, pos, comment_open()) {
        comment_at(s, pos)
    } else if 0 <= pos < s.len() {
        if s[pos] == '<' {
            element_at(s, pos)
        } else {
            Some(text_at(s, pos))
        }
    } else {
        None
    }
}

/// The element at `pos`: `<`, a name, the attributes, `>`, the children,
/// and a closing tag, which is `</`, the same name again, and `>`.
pub open spec fn element_at(s: Seq<char>, pos: int) -> Option<Parsed<Tree>>
    decreases remaining(s, pos), 0int,
    via element_at_decreases
{
    if 0 <= pos < s.len() && s[pos] == '<' {
        let name = s.subrange(pos + 1, name_end(s, pos + 1));
        match attributes_at(s, name_end(s, pos + 1), Map::empty()) {
            Some(attrs) => match nodes_at(s, attrs.next + 1) {
                Some(children) => {
                    let closing_name = children.next + closing_tag_open().len();
                    let closing_name_end = name_end(s, closing_name);
                    if starts_with_at(s, children.next, closing_tag_open()) && s.subrange(
                        closing_name,
                        closing_name_end,
                    ) =~= name && closing_name_end < s.len() && s[closing_name_end] == '>' {
                        Some(
                            Parsed {
                                value: Tree::Element {
                                    name,
                                    attributes: attrs.value,
                                    children: children.value,
                                },
                                next: closing_name_end + 1,
                            },
                        )
                    } else {
                        None
                    }
                },
                None => None,
            },
            None => None,
        }
    } else {
        None
    }
}

#[via_fn]
proof fn element_at_decreases(s: Seq<char>, pos: int) {
    lemma_run_end(s, pos + 1, name_class());
    lemma_attributes_at(s, name_end(s, pos + 1), Map::empty());
}

/// The sibling nodes from `pos` on, in the order in which they stand.
/// Whitespace before a node is skipped. The sequence ends at the end of
/// `s` or where `</` stands, and the position that comes with it is that
/// place. Every node takes at least one character
/// (`lemma_node_advances`), so the test on `first.next` never fails.
pub open spec fn nodes_at(s: Seq<char>, pos: int) -> Option<Parsed<Seq<Tree>>>
    decreases remaining(s, pos), 2int,
    via nodes_at_decreases
{
    let start = whitespace_end(s, pos);
    if start >= s.len() || starts_with_at(s, start, closing_tag_open()) {
        Some(Parsed { value: Seq::empty(), next: start })
    } else {
        match node_at(s, start) {
            Some(first) => if first.next > start {
                match nodes_at(s, first.next) {
                    Some(rest) => Some(
                        Parsed { value: seq![first.value] + rest.value, next: rest.next },
                    ),
                    None => None,
                }
            } else {
                None
            },
            None => None,
        }
    }
}

#[via_fn]
proof fn nodes_at_decreases(s: Seq<char>, pos: int) {
    lemma_run_end(s, pos, whitespace_class());
}

/// The root for the top-level nodes `top`: where there is exactly one, that
/// node. Otherwise, for none and for two or more, an element named `html`
/// without attributes, whose children are the top-level nodes in order.
pub open spec fn root_of(top: Seq<Tree>) -> Tree {
    if top.len() == 1 {
        top[0]
    } else {
        Tree::Element { name: root_tag(), attributes: Map::empty(), children: top }
    }
}

/// The tree of the document `s`: the root for the top-level nodes, which
/// are read from the start of `s`. `None` where the markup is malformed.
pub open spec fn document(s: Seq<char>) -> Option<Tree> {
    match nodes_at(s, 0) {
        Some(top) => Some(root_of(top.value)),
        None => None,
    }
}

/// A comment ends after the place where it starts, and within `s`.
pub proof fn lemma_comment_at(s: Seq<char>, pos: int)
    ensures
        comment_at(s, pos) matches Some(found) ==> pos + 7 <= found.next <= s.len(),
{
    lemma_find_at_or_after(s, pos + comment_open().len(), comment_close());
}

/// A text ends at or after the place where it starts, and after it where
/// the character at that place is not `<`.
pub proof fn lemma_text_at(s: Seq<char>, pos: int)
    ensures
        pos <= text_at(s, pos).next,
        pos <= s.len() ==> text_at(s, pos).next <= s.len(),
        0 <= pos < s.len() && s[pos] != '<' ==> pos < text_at(s, pos).next,
{
    lemma_run_end(s, pos, other_than('<'));
}

/// Every node takes at least one character and ends within `s`.
pub proof fn lemma_node_advances(s: Seq<char>, pos: int)
    ensures
        node_at(s, pos) matches Some(node) ==> pos < node.next <= s.len(),
    decreases remaining(s, pos), 1int,
{
    lemma_comment_at(s, pos);
    lemma_text_at(s, pos);
    if !starts_with_at(s, pos, comment_open()) && 0 <= pos < s.len() && s[pos] == '<' {
        lemma_element_advances(s, pos);
    }
}

/// Every element takes at least one character and ends within `s`.
pub proof fn lemma_element_advances(s: Seq<char>, pos: int)
    ensures
        element_at(s, pos) matches Some(found) ==> pos < found.next <= s.len(),
    decreases remaining(s, pos), 0int,
{
    if 0 <= pos < s.len() && s[pos] == '<' {
        lemma_run_end(s, pos + 1, name_class());
        lemma_attributes_at(s, name_end(s, pos + 1), Map::empty());
        match attributes_at(s, name_end(s, pos + 1), Map::empty()) {
            Some(attrs) => {
                lemma_nodes_end(s, attrs.next + 1);
                match nodes_at(s, attrs.next + 1) {
                    Some(children) => {
                        lemma_run_end(
                            s,
                            children.next + closing_tag_open().len(),
                            name_class(),
                        );
                    },
                    None => {},
                }
            },
            None => {},
        }
    }
}

/// A sequence of sibling nodes ends at or after the place where it starts,
/// and within `s` where it starts within `s`.
pub proof fn lemma_nodes_end(s: Seq<char>, pos: int)
    ensures
        nodes_at(s, pos) matches Some(nodes) ==> pos <= nodes.next && (pos <= s.len()
            ==> nodes.next <= s.len()),
    decreases remaining(s, pos), 2int,
{
    lemma_run_end(s, pos, whitespace_class());
    let start = whitespace_end(s, pos);
    if !(start >= s.len() || starts_with_at(s, start, closing_tag_open())) {
        lemma_node_advances(s, start);
        match node_at(s, start) {
            Some(first) => {
                if first.next > start {
                    lemma_nodes_end(s, first.next);
                }
            },
            None => {},
        }
    }
}

/// The document without any character is an `html` element without
/// attributes and without children.
pub proof fn lemma_empty_document()
    ensures
        document(Seq::empty()) == Some(
            Tree::Element {
                name: root_tag(),
                attributes: Map::empty(),
                children: Seq::empty(),
            },
        ),
{
}

} // verus!
