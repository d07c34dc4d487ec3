//! Dotted paths into a document tree.

use vstd::prelude::*;
use vstd::string::{StrSliceExecFns, StringExecFns};
use crate::text::{
    all_digits, chars_of, decimal, digits_value, index_of_digits, lemma_decimal_of_digits,
    push_decimal,
};

verus! {

/// One step of a path: into a table by key, or into an array by position.
#[derive(Debug, PartialEq, Eq)]
pub enum PathElement {
    /// The entry of a table with this key.
    TableProperty(String),
    /// The element of an array at this position.
    ArrayIndex(usize),
}

/// The mathematical value of a [`PathElement`].
pub enum Segment {
    TableProperty(Seq<char>),
    ArrayIndex(usize),
}

impl View for PathElement {
    type V = Segment;

    open spec fn view(&self) -> Segment {
        match self {
            PathElement::TableProperty(name) => Segment::TableProperty(name@),
            PathElement::ArrayIndex(index) => Segment::ArrayIndex(*index),
        }
    }
}

impl Clone for PathElement {
    fn clone(&self) -> (copy: Self)
        ensures
            copy@ == self@,
    {
        match self {
            PathElement::TableProperty(name) => PathElement::TableProperty(name.clone()),
            PathElement::ArrayIndex(index) => PathElement::ArrayIndex(*index),
        }
    }
}

/// A path to a place in a document tree, such as `servers.0.port`.
///
/// The empty path addresses the root.
#[derive(Debug, PartialEq, Eq)]
pub struct TomlKeyPath(pub Vec<PathElement>);

impl View for TomlKeyPath {
    type V = Seq<Segment>;

    open spec fn view(&self) -> Seq<Segment> {
        self.0@.map_values(|e: PathElement| e@)
    }
}

impl Clone for TomlKeyPath {
    fn clone(&self) -> (copy: Self)
        ensures
            copy@ == self@,
    {
        let mut elements: Vec<PathElement> = Vec::new();
        let mut i: usize = 0;
        while i < self.0.len()
            invariant
                i <= self.0.len(),
                elements@.len() == i,
                forall|j: int| 0 <= j < i ==> (#[trigger] elements@[j])@ == self.0@[j]@,
            decreases self.0.len() - i,
        {
            elements.push(self.0[i].clone());
            i = i + 1;
        }
        let copy = TomlKeyPath(elements);
        assert(copy@ =~= self@);
        copy
    }
}

impl Default for TomlKeyPath {
    fn default() -> (path: Self)
        ensures
            path@ == Seq::<Segment>::empty(),
    {
        let path = TomlKeyPath(Vec::new());
        assert(path@ =~= Seq::<Segment>::empty());
        path
    }
}

/// The place of the first dot in `s`, or the length of `s` if it has none.
pub open spec fn first_dot(s: Seq<char>) -> int
    decreases s.len(),
{
    if s.len() == 0 || s[0] == '.' {
        0
    } else {
        1 + first_dot(s.drop_first())
    }
}

/// The pieces of `s` between its dots, empty ones included. There is always
/// at least one piece.
pub open spec fn split_dots(s: Seq<char>) -> Seq<Seq<char>>
    decreases s.len(),
{
    let k = first_dot(s);
    if 0 <= k < s.len() {
        seq![s.take(k)] + split_dots(s.skip(k + 1))
    } else {
        seq![s]
    }
}

/// The pieces, with a dot between each two.
pub open spec fn join_dots(pieces: Seq<Seq<char>>) -> Seq<char>
    decreases pieces.len(),
{
    if pieces.len() == 0 {
        Seq::empty()
    } else if pieces.len() == 1 {
        pieces[0]
    } else {
        pieces[0] + seq!['.'] + join_dots(pieces.drop_first())
    }
}

/// Whether a piece is read as a position: it holds digits only, and the
/// number they denote fits the machine's word.
pub open spec fn is_index_text(piece: Seq<char>) -> bool {
    piece.len() > 0 && all_digits(piece) && digits_value(piece) <= usize::MAX
}

/// The step that a piece, not empty, stands for: a position where it is
/// purely numeric, a key otherwise.
pub open spec fn segment_of(piece: Seq<char>) -> Segment {
    if is_index_text(piece) {
        Segment::ArrayIndex(digits_value(piece) as usize)
    } else {
        Segment::TableProperty(piece)
    }
}

/// The steps that the pieces stand for; empty pieces stand for none.
pub open spec fn segments_of(pieces: Seq<Seq<char>>) -> Seq<Segment>
    decreases pieces.len(),
{
    if pieces.len() == 0 {
        Seq::empty()
    } else if pieces[0].len() == 0 {
        segments_of(pieces.drop_first())
    } else {
        seq![segment_of(pieces[0])] + segments_of(pieces.drop_first())
    }
}

/// The path that a dotted text denotes. Empty pieces are passed over, so the
/// empty text, and a text of dots only, denote the empty path.
pub open spec fn parsed_path(s: Seq<char>) -> Seq<Segment> {
    segments_of(split_dots(s))
}

/// How a step is written: a key as it is, a position in base ten.
pub open spec fn segment_text(segment: Segment) -> Seq<char> {
    match segment {
        Segment::TableProperty(name) => name,
        Segment::ArrayIndex(index) => decimal(index as nat),
    }
}

/// How a path is written: its steps, with a dot between each two.
pub open spec fn rendered(path: Seq<Segment>) -> Seq<char> {
    join_dots(path.map_values(|segment: Segment| segment_text(segment)))
}

/// Where the first dot of a text stands.
pub proof fn lemma_first_dot(s: Seq<char>, k: int)
    requires
        0 <= k <= s.len(),
        forall|j: int| 0 <= j < k ==> s[j] != '.',
        k < s.len() ==> s[k] == '.',
    ensures
        first_dot(s) == k,
    decreases k,
{
    if k > 0 {
        let tail = s.drop_first();
        assert forall|j: int| 0 <= j < k - 1 implies tail[j] != '.' by {
            assert(tail[j] == s[j + 1]);
        }
        lemma_first_dot(tail, k - 1);
    }
}

/// The first dot of a text stands within it or at its end, and no dot stands
/// before it.
pub proof fn lemma_first_dot_is_first(s: Seq<char>)
    ensures
        0 <= first_dot(s) <= s.len(),
        forall|j: int| 0 <= j < first_dot(s) ==> s[j] != '.',
        first_dot(s) < s.len() ==> s[first_dot(s)] == '.',
    decreases s.len(),
{
    if s.len() == 0 || s[0] == '.' {
    } else {
        let tail = s.drop_first();
        lemma_first_dot_is_first(tail);
        assert forall|j: int| 0 <= j < first_dot(s) implies s[j] != '.' by {
            if j > 0 {
                assert(tail[j - 1] == s[j]);
            }
        }
    }
}

/// Joining the pieces of a text with dots gives the text back.
pub proof fn lemma_join_of_split(s: Seq<char>)
    ensures
        join_dots(split_dots(s)) == s,
    decreases s.len(),
{
    lemma_first_dot_is_first(s);
    let k = first_dot(s);
    if k < s.len() {
        let tail = s.skip(k + 1);
        lemma_join_of_split(tail);
        let pieces = split_dots(s);
        assert(pieces.len() >= 2);
        assert(pieces.drop_first() =~= split_dots(tail));
        assert(s.take(k) + seq!['.'] + tail =~= s);
    }
}

/// Whether one of the pieces of a dotted text is empty. The empty text has
/// one piece, which is empty.
pub open spec fn has_empty_piece(s: Seq<char>) -> bool {
    exists|i: int| 0 <= i < split_dots(s).len() && (#[trigger] split_dots(s)[i]).len() == 0
}

/// A dotted text with an empty piece: what [`TomlKeyPath::parse_strict`]
/// refuses.
#[derive(Clone, Copy, Debug, PartialEq, Eq, Structural)]
pub struct InvalidPath;

/// Whether a piece is written back as it was read: it is not empty, and if
/// it is read as a position it carries no needless leading zero.
pub open spec fn is_canonical_piece(piece: Seq<char>) -> bool {
    &&& piece.len() > 0
    &&& is_index_text(piece) && piece.len() > 1 ==> piece[0] != '0'
}

proof fn lemma_render_of_segments(pieces: Seq<Seq<char>>)
    requires
        forall|i: int| 0 <= i < pieces.len() ==> is_canonical_piece(#[trigger] pieces[i]),
    ensures
        segments_of(pieces).map_values(|segment: Segment| segment_text(segment)) == pieces,
    decreases pieces.len(),
{
    let texts = segments_of(pieces).map_values(|segment: Segment| segment_text(segment));
    if pieces.len() > 0 {
        let tail = pieces.drop_first();
        assert forall|i: int| 0 <= i < tail.len() implies is_canonical_piece(
            #[trigger] tail[i],
        ) by {
            assert(is_canonical_piece(pieces[i + 1]));
        }
        lemma_render_of_segments(tail);
        let head = pieces[0];
        assert(is_canonical_piece(head));
        if is_index_text(head) {
            lemma_decimal_of_digits(head);
        }
        assert(segment_text(segment_of(head)) == head);
        let tail_texts = segments_of(tail).map_values(|segment: Segment| segment_text(segment));
        assert(texts =~= seq![head] + tail_texts);
        assert(seq![head] + tail =~= pieces);
    } else {
        assert(texts =~= pieces);
    }
}

/// A dotted text whose pieces are all non-empty reads as a path that is
/// written back as the same text, provided that no piece read as a position
/// has a needless leading zero (the position `007` is written `7`).
pub proof fn lemma_display_of_parse(s: Seq<char>)
    requires
        forall|i: int|
            0 <= i < split_dots(s).len() ==> is_canonical_piece(#[trigger] split_dots(s)[i]),
    ensures
        rendered(parsed_path(s)) == s,
{
    lemma_render_of_segments(split_dots(s));
    lemma_join_of_split(s);
}

/// The step that `chars[from..to]`, not empty, stands for.
fn element_of(text: &str, chars: &Vec<char>, from: usize, to: usize) -> (element: PathElement)
    requires
        chars@ == text@,
        from < to <= chars.len(),
    ensures
        element@ == segment_of(text@.subrange(from as int, to as int)),
{
    match index_of_digits(chars, from, to) {
        Some(index) => PathElement::ArrayIndex(index),
        None => PathElement::TableProperty(text.substring_char(from, to).to_owned()),
    }
}

impl TomlKeyPath {
    /// Reads a dotted text as a path.
    ///
    /// The text is cut at each dot. A piece of digits only, whose number fits
    /// the machine's word, is a position in an array; any other piece is a key
    /// of a table. Empty pieces are passed over: `a..b`, `.a.b` and `a.b.` all
    /// read as `a.b`, and the empty text reads as the empty path, which
    /// addresses the root. Reading never fails; [`TomlKeyPath::parse_strict`]
    /// is the reading that refuses empty pieces.
    pub fn parse(text: &str) -> (path: TomlKeyPath)
        ensures
            path@ == parsed_path(text@),
    {
        let chars = chars_of(text);
        let mut elements: Vec<PathElement> = Vec::new();
        let mut start: usize = 0;
        let mut i: usize = 0;
        assert(text@.skip(0) =~= text@);
        while i < chars.len()
            invariant
                chars@ == text@,
                start <= i <= chars.len(),
                forall|j: int| start <= j < i ==> text@[j] != '.',
                parsed_path(text@) == elements@.map_values(|e: PathElement| e@) + segments_of(
                    split_dots(text@.skip(start as int)),
                ),
            decreases chars.len() - i,
        {
            if chars[i] == '.' {
                let ghost rest = text@.skip(start as int);
                let ghost piece = text@.subrange(start as int, i as int);
                let ghost before = elements@.map_values(|e: PathElement| e@);
                proof {
                    lemma_first_dot(rest, i - start);
                    assert(rest.take(i - start) =~= piece);
                    assert(rest.skip(i - start + 1) =~= text@.skip(i + 1));
                    let pieces = split_dots(rest);
                    assert(pieces.drop_first() =~= split_dots(text@.skip(i + 1)));
                    assert(pieces[0] == piece);
                }
                if start < i {
                    let element = element_of(text, &chars, start, i);
                    elements.push(element);
                    assert(elements@.map_values(|e: PathElement| e@) =~= before + seq![
                        segment_of(piece),
                    ]);
                }
                start = i + 1;
            }
            i = i + 1;
        }
        let ghost rest = text@.skip(start as int);
        let ghost before = elements@.map_values(|e: PathElement| e@);
        proof {
            lemma_first_dot(rest, rest.len() as int);
            assert(split_dots(rest) =~= seq![rest]);
            assert(seq![rest].drop_first() =~= Seq::<Seq<char>>::empty());
            assert(segments_of(Seq::<Seq<char>>::empty()) =~= Seq::<Segment>::empty());
            assert(segments_of(seq![rest]) =~= if rest.len() == 0 {
                Seq::<Segment>::empty()
            } else {
                seq![segment_of(rest)]
            });
            assert(rest =~= text@.subrange(start as int, chars.len() as int));
        }
        if start < chars.len() {
            let element = element_of(text, &chars, start, chars.len());
            elements.push(element);
            assert(elements@.map_values(|e: PathElement| e@) =~= before + seq![segment_of(rest)]);
        }
        let path = TomlKeyPath(elements);
        assert(path@ =~= parsed_path(text@));
        path
    }

    /// Reads a dotted text as a path, and refuses a text with an empty
    /// piece: the empty text, a text that begins or ends with a dot, a text
    /// with two dots in a row. Any other text reads as [`TomlKeyPath::parse`]
    /// reads it.
    pub fn parse_strict(text: &str) -> (result: Result<TomlKeyPath, InvalidPath>)
        ensures
            match result {
                Ok(path) => !has_empty_piece(text@) && path@ == parsed_path(text@),
                Err(_) => has_empty_piece(text@),
            },
    {
        let chars = chars_of(text);
        let ghost mut done: Seq<Seq<char>> = Seq::empty();
        let mut start: usize = 0;
        let mut i: usize = 0;
        assert(text@.skip(0) =~= text@);
        assert(done + split_dots(text@) =~= split_dots(text@));
        while i < chars.len()
            invariant
                chars@ == text@,
                start <= i <= chars.len(),
                forall|j: int| start <= j < i ==> text@[j] != '.',
                forall|k: int| 0 <= k < done.len() ==> (#[trigger] done[k]).len() > 0,
                split_dots(text@) == done + split_dots(text@.skip(start as int)),
            decreases chars.len() - i,
        {
            if chars[i] == '.' {
                let ghost rest = text@.skip(start as int);
                let ghost piece = text@.subrange(start as int, i as int);
                proof {
                    lemma_first_dot(rest, i - start);
                    assert(rest.take(i - start) =~= piece);
                    assert(rest.skip(i - start + 1) =~= text@.skip(i + 1));
                    assert(split_dots(rest) =~= seq![piece] + split_dots(text@.skip(i + 1)));
                    assert(split_dots(text@)[done.len() as int] == piece);
                }
                if start == i {
                    return Err(InvalidPath);
                }
                proof {
                    assert(done + split_dots(rest) =~= done.push(piece) + split_dots(
                        text@.skip(i + 1),
                    ));
                    done = done.push(piece);
                }
                start = i + 1;
            }
            i = i + 1;
        }
        let ghost rest = text@.skip(start as int);
        proof {
            lemma_first_dot(rest, rest.len() as int);
            assert(split_dots(rest) =~= seq![rest]);
            assert(split_dots(text@) =~= done.push(rest));
        }
        if start == chars.len() {
            assert(split_dots(text@)[done.len() as int].len() == 0);
            return Err(InvalidPath);
        }
        Ok(TomlKeyPath::parse(text))
    }

    /// Writes the path as dotted text: keys as they are, positions in base
    /// ten, a dot between each two steps.
    pub fn display(&self) -> (text: String)
        ensures
            text@ == rendered(self@),
    {
        let ghost texts = self@.map_values(|segment: Segment| segment_text(segment));
        let mut text = String::new();
        let mut i: usize = 0;
        assert(texts.take(0) =~= Seq::<Seq<char>>::empty());
        while i < self.0.len()
            invariant
                i <= self.0.len(),
                texts == self@.map_values(|segment: Segment| segment_text(segment)),
                text@ == join_dots(texts.take(i as int)),
            decreases self.0.len() - i,
        {
            proof {
                lemma_join_push(texts.take(i as int), texts[i as int]);
                assert(texts.take(i as int).push(texts[i as int]) =~= texts.take(i + 1));
                reveal_strlit(".");
            }
            if i > 0 {
                text.append(".");
            }
            match &self.0[i] {
                PathElement::TableProperty(name) => {
                    text.append(name.as_str());
                },
                PathElement::ArrayIndex(index) => {
                    push_decimal(&mut text, *index);
                },
            }
            assert(text@ =~= join_dots(texts.take(i + 1)));
            i = i + 1;
        }
        assert(texts.take(self.0.len() as int) =~= texts);
        text
    }
}

impl std::str::FromStr for TomlKeyPath {
    type Err = ();

    /// Reads a dotted text as [`TomlKeyPath::parse`] does. Never fails.
    fn from_str(text: &str) -> (path: Result<Self, ()>)
        ensures
            path matches Ok(p) && p@ == parsed_path(text@),
    {
        Ok(TomlKeyPath::parse(text))
    }
}

/// Joining one piece more puts a dot and the piece at the end, or the piece
/// alone where it is the first.
proof fn lemma_join_push(pieces: Seq<Seq<char>>, piece: Seq<char>)
    ensures
        join_dots(pieces.push(piece)) == if pieces.len() == 0 {
            piece
        } else {
            join_dots(pieces) + seq!['.'] + piece
        },
    decreases pieces.len(),
{
    let longer = pieces.push(piece);
    if pieces.len() == 0 {
    } else if pieces.len() == 1 {
        assert(longer.drop_first() =~= seq![piece]);
        assert(join_dots(longer.drop_first()) == piece);
    } else {
        let tail = pieces.drop_first();
        lemma_join_push(tail, piece);
        assert(longer.drop_first() =~= tail.push(piece));
        assert(join_dots(longer) =~= join_dots(pieces) + seq!['.'] + piece);
    }
}

} // verus!
