//! Pattern templates: literal instructions and named bindings, and the
//! parser of their textual form.

use crate::common::{command_of_byte, BFCommand, Position};
use crate::errors::ErrorWithPosition;
use bimap::BiMap;
use vstd::prelude::*;

verus! {

/// The two-way table of `bimap`, opaque to the verifier: what it holds is
/// named by [`bindings_of`].
#[verifier::external_type_specification]
#[verifier::external_body]
#[verifier::reject_recursive_types(L)]
#[verifier::reject_recursive_types(R)]
#[verifier::reject_recursive_types(LS)]
#[verifier::reject_recursive_types(RS)]
pub struct ExBiHashMap<L, R, LS, RS>(bimap::BiHashMap<L, R, LS, RS>);

/// The pairs that a table of bindings holds: for each index its name.
pub uninterp spec fn bindings_of(table: BiMap<usize, String>) -> Map<usize, Seq<char>>;

/// `BiMap::new`: the table that it returns holds no pair.
#[verifier::external_body]
fn table_new() -> (table: BiMap<usize, String>)
    ensures
        bindings_of(table) == (Map::<usize, Seq<char>>::empty()),
{
    BiMap::new()
}

/// `BiHashMap::len`: the number of pairs in the table.
#[verifier::external_body]
fn table_len(table: &BiMap<usize, String>) -> (n: usize)
    ensures
        n == bindings_of(*table).dom().len(),
{
    table.len()
}

/// `BiHashMap::get_by_right`: the index that is paired with `name`, or
/// `None` where no pair has that name.
#[verifier::external_body]
fn table_get_by_right(table: &BiMap<usize, String>, name: &String) -> (r: Option<usize>)
    ensures
        match r {
            Some(i) => bindings_of(*table).contains_key(i) && bindings_of(*table)[i] == name@,
            None => forall|i: usize|
                bindings_of(*table).contains_key(i) ==> bindings_of(*table)[i] != name@,
        },
{
    table.get_by_right(name).copied()
}

/// `BiHashMap::insert`: the pair of `index` and the pair of `name` leave
/// the table where there are such, and the pair of both enters it.
#[verifier::external_body]
fn table_insert(table: &mut BiMap<usize, String>, index: usize, name: String)
    ensures
        bindings_of(*final(table)) == Map::new(
            |i: usize|
                i == index || (bindings_of(*old(table)).contains_key(i) && bindings_of(
                    *old(table),
                )[i] != name@),
            |i: usize|
                if i == index {
                    name@
                } else {
                    bindings_of(*old(table))[i]
                },
        ),
{
    table.insert(index, name);
}

/// Whether `char::is_alphabetic` holds of a character.
pub uninterp spec fn is_alphabetic(c: char) -> bool;

/// Whether `char::is_alphanumeric` holds of a character.
pub uninterp spec fn is_alphanumeric(c: char) -> bool;

/// Whether `char::is_whitespace` holds of a character.
pub uninterp spec fn is_whitespace(c: char) -> bool;

/// `char::is_alphabetic` decides by the Unicode tables; its answer for a
/// character is always the same.
pub assume_specification[ char::is_alphabetic ](c: char) -> (b: bool)
    ensures
        b == is_alphabetic(c),
;

/// `char::is_alphanumeric` decides by the Unicode tables; its answer for a
/// character is always the same.
pub assume_specification[ char::is_alphanumeric ](c: char) -> (b: bool)
    ensures
        b == is_alphanumeric(c),
;

/// `char::is_whitespace` decides by the Unicode tables; its answer for a
/// character is always the same.
pub assume_specification[ char::is_whitespace ](c: char) -> (b: bool)
    ensures
        b == is_whitespace(c),
;

/// `String::push` appends one character.
pub assume_specification[ String::push ](s: &mut String, ch: char)
    ensures
        final(s)@ == old(s)@.push(ch),
;

/// One item of a template.
#[derive(Debug, Clone, Copy, PartialEq, Eq, Structural)]
pub enum Pattern {
    /// A single instruction, matched literally.
    Instruction(BFCommand),
    /// A named tape address. A strict binding must be reached by a
    /// non-empty run of pointer moves.
    Binding { index: usize, strict: bool },
}

/// A template: its items in order, and the names of its bindings.
#[derive(Debug)]
pub struct PatternScope {
    pub bindings: BiMap<usize, String>,
    pub patterns: Vec<Pattern>,
}

/// Why a template could not be read.
#[derive(Debug, Clone, Copy, PartialEq, Eq, Structural)]
pub enum ParseError {
    /// A character that is no instruction, no part of a name and no space.
    UnknownChar { bad_char: char },
}

/// A character of a template's text, with what the parser asks of it.
#[derive(Debug, Clone, Copy, PartialEq, Eq, Structural)]
pub struct Glyph {
    pub ch: char,
    /// The character may start a name.
    pub alphabetic: bool,
    /// The character may continue a name.
    pub alphanumeric: bool,
    /// The character separates items and stands for nothing.
    pub whitespace: bool,
}

/// The glyph of a character, classified as the standard library does.
pub open spec fn glyph_of(c: char) -> Glyph {
    Glyph {
        ch: c,
        alphabetic: is_alphabetic(c),
        alphanumeric: is_alphanumeric(c),
        whitespace: is_whitespace(c),
    }
}

/// The glyphs of a text, character by character.
pub open spec fn glyphs_of(text: Seq<char>) -> Seq<Glyph> {
    Seq::new(text.len(), |i: int| glyph_of(text[i]))
}

/// The instruction that a character writes, if it writes one.
pub open spec fn literal_of(c: char) -> Option<BFCommand> {
    if (c as u32) < 128 {
        command_of_byte(c as u8)
    } else {
        None
    }
}

/// What the parser has read so far.
pub struct LexState {
    /// The items that are complete.
    pub items: Seq<Pattern>,
    /// The names of the bindings, each at its index.
    pub names: Seq<Seq<char>>,
    /// The position behind the last character read.
    pub position: Position,
    /// The name that is being read, where the parser is inside one.
    pub pending: Option<Seq<char>>,
}

/// The state before the first character.
pub open spec fn lex_start() -> LexState {
    LexState {
        items: Seq::empty(),
        names: Seq::empty(),
        position: Position { column: 1, line: 1 },
        pending: None,
    }
}

/// The index of `name` among `names`: where it stands, or behind the last
/// one where it is new.
pub open spec fn intern_index(names: Seq<Seq<char>>, name: Seq<char>) -> usize {
    if names.contains(name) {
        names.index_of(name) as usize
    } else {
        names.len() as usize
    }
}

/// The names once `name` has its index.
pub open spec fn intern(names: Seq<Seq<char>>, name: Seq<char>) -> Seq<Seq<char>> {
    if names.contains(name) {
        names
    } else {
        names.push(name)
    }
}

/// The state once the pending `name` has become a binding.
pub open spec fn close_name(st: LexState, name: Seq<char>, strict: bool) -> LexState {
    LexState {
        items: st.items.push(Pattern::Binding { index: intern_index(st.names, name), strict }),
        names: intern(st.names, name),
        position: st.position,
        pending: None,
    }
}

/// Reads a glyph outside a name: an instruction is an item, a letter
/// starts a name, a space is passed over, anything else is refused at the
/// position where it stands.
pub open spec fn lex_plain(st: LexState, g: Glyph) -> Result<
    LexState,
    ErrorWithPosition<ParseError>,
> {
    let position = st.position.after_char(g.ch);
    if let Some(instr) = literal_of(g.ch) {
        Ok(LexState { items: st.items.push(Pattern::Instruction(instr)), position, ..st })
    } else if g.alphabetic {
        Ok(LexState { pending: Some(seq![g.ch]), position, ..st })
    } else if g.whitespace {
        Ok(LexState { position, ..st })
    } else {
        Err(
            ErrorWithPosition {
                kind: ParseError::UnknownChar { bad_char: g.ch },
                position: st.position,
            },
        )
    }
}

/// Reads one glyph. Inside a name a letter or digit continues it, `!`
/// ends it as a strict binding, and anything else ends it and is then read
/// outside the name.
pub open spec fn lex_glyph(st: LexState, g: Glyph) -> Result<
    LexState,
    ErrorWithPosition<ParseError>,
> {
    match st.pending {
        None => lex_plain(st, g),
        Some(name) => if g.alphanumeric {
            Ok(
                LexState {
                    pending: Some(name.push(g.ch)),
                    position: st.position.after_char(g.ch),
                    ..st
                },
            )
        } else if g.ch == '!' {
            Ok(
                LexState {
                    position: st.position.after_char('!'),
                    ..close_name(st, name, true)
                },
            )
        } else {
            lex_plain(close_name(st, name, false), g)
        },
    }
}

/// The state after the first `n` glyphs, or the first refusal.
pub open spec fn lex_first(glyphs: Seq<Glyph>, n: nat) -> Result<
    LexState,
    ErrorWithPosition<ParseError>,
>
    decreases n,
{
    if n == 0 {
        Ok(lex_start())
    } else {
        match lex_first(glyphs, (n - 1) as nat) {
            Err(e) => Err(e),
            Ok(st) => lex_glyph(st, glyphs[n - 1]),
        }
    }
}

/// The template that a text of glyphs writes: all glyphs are read, and a
/// name that the text ends in becomes a binding that is not strict.
pub open spec fn lex(glyphs: Seq<Glyph>) -> Result<LexState, ErrorWithPosition<ParseError>> {
    match lex_first(glyphs, glyphs.len()) {
        Err(e) => Err(e),
        Ok(st) => match st.pending {
            Some(name) => Ok(close_name(st, name, false)),
            None => Ok(st),
        },
    }
}

/// The table in which each of `names` stands at its index.
pub open spec fn names_table(names: Seq<Seq<char>>) -> Map<usize, Seq<char>> {
    Map::new(|i: usize| i < names.len(), |i: usize| names[i as int])
}

/// Whether `scope` is the template that `st` describes.
pub open spec fn scope_is(scope: PatternScope, st: LexState) -> bool {
    &&& scope.patterns@ == st.items
    &&& bindings_of(scope.bindings) == names_table(st.names)
}

/// The state in which a name that is still open counts as a binding that
/// is not strict.
pub open spec fn settled(st: LexState) -> LexState {
    match st.pending {
        Some(name) => close_name(st, name, false),
        None => st,
    }
}

/// A table that holds `n` names at the indices below `n` has `n` entries.
proof fn lemma_names_table_len(names: Seq<Seq<char>>)
    requires
        names.len() <= usize::MAX,
    ensures
        names_table(names).dom().finite(),
        names_table(names).dom().len() == names.len(),
    decreases names.len(),
{
    if names.len() == 0 {
        assert(names_table(names).dom() =~= Set::empty());
    } else {
        let fewer = names.drop_last();
        lemma_names_table_len(fewer);
        assert(names_table(names).dom() =~= names_table(fewer).dom().insert(
            (names.len() - 1) as usize,
        ));
    }
}

/// Where no two names are equal, a name stands at one index only.
proof fn lemma_index_of_unique(names: Seq<Seq<char>>, name: Seq<char>, i: int)
    requires
        names.no_duplicates(),
        0 <= i < names.len(),
        names[i] == name,
    ensures
        names.contains(name),
        names.index_of(name) == i,
{
    let j = names.index_of(name);
    assert(0 <= j < names.len() && names[j] == name);
}

/// The glyph of `ch`, classified by `char::is_alphabetic`,
/// `char::is_alphanumeric` and `char::is_whitespace`.
pub fn classify(ch: char) -> (g: Glyph)
    ensures
        g == glyph_of(ch),
{
    Glyph {
        ch,
        alphabetic: ch.is_alphabetic(),
        alphanumeric: ch.is_alphanumeric(),
        whitespace: ch.is_whitespace(),
    }
}

/// The instruction that `ch` writes, if it writes one.
pub fn literal(ch: char) -> (r: Option<BFCommand>)
    ensures
        r == literal_of(ch),
{
    if (ch as u32) < 128 {
        BFCommand::from_u8(ch as u8)
    } else {
        None
    }
}

/// The index of `name` in the table of bindings; a name that the table
/// does not hold enters it behind the last one.
fn intern_name(bindings: &mut BiMap<usize, String>, name: String, Ghost(names): Ghost<
    Seq<Seq<char>>,
>) -> (index: usize)
    requires
        bindings_of(*old(bindings)) == names_table(names),
        names.no_duplicates(),
        names.len() < usize::MAX,
    ensures
        index == intern_index(names, name@),
        bindings_of(*final(bindings)) == names_table(intern(names, name@)),
        intern(names, name@).no_duplicates(),
        intern(names, name@).len() <= names.len() + 1,
{
    match table_get_by_right(bindings, &name) {
        Some(i) => {
            proof {
                assert(names_table(names).contains_key(i));
                lemma_index_of_unique(names, name@, i as int);
            }
            i
        },
        None => {
            let len = table_len(bindings);
            proof {
                lemma_names_table_len(names);
                assert forall|j: int| 0 <= j < names.len() implies names[j] != name@ by {
                    let k = j as usize;
                    assert(names_table(names).contains_key(k));
                    assert(names_table(names)[k] == names[j]);
                    assert(bindings_of(*bindings).contains_key(k));
                    assert(bindings_of(*bindings)[k] != name@);
                }
                assert(!names.contains(name@));
            }
            let ghost text = name@;
            table_insert(bindings, len, name);
            proof {
                assert(bindings_of(*bindings) =~= names_table(names.push(text)));
            }
            len
        },
    }
}

/// Parses the glyphs of a template's text. Instructions stand for
/// themselves. A name is a letter followed by letters and digits; names
/// get their indices in the order in which they first occur, and a name
/// directly followed by `!` is a strict binding. Spaces separate; any other
/// character is refused together with the position at which it stands.
pub fn parse_glyphs(glyphs: &[Glyph]) -> (r: Result<PatternScope, ErrorWithPosition<ParseError>>)
    ensures
        match lex(glyphs@) {
            Ok(st) => r matches Ok(scope) && scope_is(scope, st),
            Err(e) => r matches Err(got) && got == e,
        },
{
    let mut current_pos = Position::default();
    let mut offset_i: usize = 0;
    let mut bindings = table_new();
    let mut patterns: Vec<Pattern> = Vec::new();
    let ghost mut names: Seq<Seq<char>> = Seq::empty();
    let ghost mut st = lex_start();
    proof {
        assert(bindings_of(bindings) =~= names_table(names));
    }
    while offset_i < glyphs.len()
        invariant
            offset_i <= glyphs.len(),
            lex_first(glyphs@, offset_i as nat) == Ok::<LexState, ErrorWithPosition<ParseError>>(st),
            settled(st) == (LexState {
                items: patterns@,
                names,
                position: current_pos,
                pending: None,
            }),
            st.pending is Some && offset_i < glyphs.len() ==> !glyphs@[offset_i as int].alphanumeric
                && glyphs@[offset_i as int].ch != '!',
            bindings_of(bindings) == names_table(names),
            names.no_duplicates(),
            names.len() <= offset_i,
        decreases glyphs.len() - offset_i,
    {
        let g = glyphs[offset_i];
        let ghost before = settled(st);
        assert(lex_glyph(st, g) == lex_plain(before, g));
        assert(lex_first(glyphs@, (offset_i + 1) as nat) == lex_plain(before, g));
        match literal(g.ch) {
            Some(instr) => {
                current_pos.advance_char(g.ch);
                offset_i += 1;
                patterns.push(Pattern::Instruction(instr));
                proof {
                    st = lex_plain(before, g)->Ok_0;
                }
            },
            None => {
                if g.alphabetic {
                    let ghost start = offset_i;
                    let mut name = String::new();
                    name.push(g.ch);
                    current_pos.advance_char(g.ch);
                    offset_i += 1;
                    proof {
                        st = lex_plain(before, g)->Ok_0;
                        assert(name@ =~= seq![g.ch]);
                    }
                    while offset_i < glyphs.len() && glyphs[offset_i].alphanumeric
                        invariant
                            offset_i <= glyphs.len(),
                            lex_first(glyphs@, offset_i as nat) == Ok::<
                                LexState,
                                ErrorWithPosition<ParseError>,
                            >(st),
                            st == (LexState {
                                items: patterns@,
                                names,
                                position: current_pos,
                                pending: Some(name@),
                            }),
                            names.len() < offset_i,
                            start < offset_i,
                        decreases glyphs.len() - offset_i,
                    {
                        let more = glyphs[offset_i];
                        name.push(more.ch);
                        current_pos.advance_char(more.ch);
                        offset_i += 1;
                        proof {
                            st = lex_glyph(st, more)->Ok_0;
                        }
                    }
                    let strict = offset_i < glyphs.len() && glyphs[offset_i].ch == '!';
                    if strict {
                        proof {
                            st = lex_glyph(st, glyphs@[offset_i as int])->Ok_0;
                        }
                        offset_i += 1;
                        current_pos.advance_char('!');
                    }
                    let index = intern_name(&mut bindings, name, Ghost(names));
                    patterns.push(Pattern::Binding { index, strict });
                    proof {
                        names = intern(names, name@);
                    }
                } else if !g.whitespace {
                    proof {
                        lemma_refusal_is_final(glyphs@, (offset_i + 1) as nat, glyphs@.len());
                    }
                    return Err(
                        ErrorWithPosition {
                            kind: ParseError::UnknownChar { bad_char: g.ch },
                            position: current_pos,
                        },
                    );
                } else {
                    current_pos.advance_char(g.ch);
                    offset_i += 1;
                    proof {
                        st = lex_plain(before, g)->Ok_0;
                    }
                }
            },
        }
    }
    Ok(PatternScope { bindings, patterns })
}

/// Once a glyph was refused, the text is refused, for the same reason.
proof fn lemma_refusal_is_final(glyphs: Seq<Glyph>, n: nat, m: nat)
    requires
        n <= m,
        lex_first(glyphs, n) is Err,
    ensures
        lex_first(glyphs, m) == lex_first(glyphs, n),
    decreases m,
{
    if n < m {
        lemma_refusal_is_final(glyphs, n, (m - 1) as nat);
    }
}

/// Parses the textual form of a template: see [`parse_glyphs`], which does
/// the work on the characters of `src` as [`classify`] sees them.
pub fn parse_pattern(src: &str) -> (r: Result<PatternScope, ErrorWithPosition<ParseError>>)
    ensures
        match lex(glyphs_of(src@)) {
            Ok(st) => r matches Ok(scope) && scope_is(scope, st),
            Err(e) => r matches Err(got) && got == e,
        },
{
    let mut glyphs: Vec<Glyph> = Vec::new();
    for c in it: src.chars()
        invariant
            it.seq() == src@,
            glyphs@ == glyphs_of(src@.take(it.index())),
    {
        glyphs.push(classify(c));
        assert(glyphs@ =~= glyphs_of(src@.take(it.index() + 1)));
    }
    assert(glyphs@ =~= glyphs_of(src@));
    parse_glyphs(glyphs.as_slice())
}

/// Whether the item at `j` is a binding with index `k`.
pub open spec fn binds(items: Seq<Pattern>, j: int, k: usize) -> bool {
    0 <= j < items.len() && (items[j] matches Pattern::Binding { index, .. } && index == k)
}

/// Whether one of the first `before` items is a binding with index `k`.
pub open spec fn index_in_use(items: Seq<Pattern>, k: usize, before: int) -> bool {
    exists|j: int| j < before && #[trigger] binds(items, j, k)
}

/// Whether the bindings among `items` use the indices of `names` and no
/// others, each index being new only once all smaller ones are in use.
pub open spec fn interned(items: Seq<Pattern>, names: Seq<Seq<char>>) -> bool {
    &&& names.no_duplicates()
    &&& names.len() <= items.len()
    &&& forall|i: int|
        0 <= i < items.len() ==> (#[trigger] items[i] matches Pattern::Binding { index, .. }
            ==> index < names.len() && (index == 0 || index_in_use(
            items,
            (index - 1) as usize,
            i,
        )))
    &&& forall|k: usize| k < names.len() ==> #[trigger] index_in_use(items, k, items.len() as int)
}

/// What is in use among some items is in use among them and one more.
proof fn lemma_in_use_grows(items: Seq<Pattern>, item: Pattern, k: usize, before: int)
    requires
        index_in_use(items, k, before),
        before <= items.len(),
    ensures
        index_in_use(items.push(item), k, before),
{
    let j = choose|j: int| j < before && #[trigger] binds(items, j, k);
    assert(binds(items.push(item), j, k));
}

/// One more item that is no new binding keeps the names interned.
proof fn lemma_push_interned(items: Seq<Pattern>, names: Seq<Seq<char>>, item: Pattern)
    requires
        interned(items, names),
        item matches Pattern::Binding { index, .. } ==> index < names.len(),
    ensures
        interned(items.push(item), names),
{
    let more = items.push(item);
    assert forall|i: int| 0 <= i < more.len() implies (#[trigger] more[i] matches Pattern::Binding {
        index,
        ..
    } ==> index < names.len() && (index == 0 || index_in_use(more, (index - 1) as usize, i))) by {
        if let Pattern::Binding { index, .. } = more[i] {
            if index != 0 {
                let k = (index - 1) as usize;
                if i < items.len() {
                    assert(more[i] == items[i]);
                    lemma_in_use_grows(items, item, k, i);
                } else {
                    assert(index_in_use(items, k, items.len() as int));
                    lemma_in_use_grows(items, item, k, items.len() as int);
                }
            } else if i < items.len() {
                assert(more[i] == items[i]);
            }
        }
    }
    assert forall|k: usize| k < names.len() implies #[trigger] index_in_use(
        more,
        k,
        more.len() as int,
    ) by {
        assert(index_in_use(items, k, items.len() as int));
        lemma_in_use_grows(items, item, k, items.len() as int);
        let j = choose|j: int| j < items.len() && #[trigger] binds(more, j, k);
        assert(j < more.len() && binds(more, j, k));
    }
}

/// Making a name a binding keeps the names interned.
proof fn lemma_close_name_interned(st: LexState, name: Seq<char>, strict: bool)
    requires
        interned(st.items, st.names),
        st.items.len() < usize::MAX,
    ensures
        interned(close_name(st, name, strict).items, close_name(st, name, strict).names),
{
    let next = close_name(st, name, strict);
    let index = intern_index(st.names, name);
    let item = Pattern::Binding { index, strict };
    if st.names.contains(name) {
        let found = st.names.index_of(name);
        assert(0 <= found < st.names.len());
        lemma_push_interned(st.items, st.names, item);
    } else {
        let more = next.items;
        let at = st.items.len() as int;
        assert(binds(more, at, index));
        assert forall|i: int| 0 <= i < more.len() implies (#[trigger] more[i] matches Pattern::Binding {
            index,
            ..
        } ==> index < next.names.len() && (index == 0 || index_in_use(
            more,
            (index - 1) as usize,
            i,
        ))) by {
            if let Pattern::Binding { index: x, .. } = more[i] {
                if i < at {
                    assert(more[i] == st.items[i]);
                    if x != 0 {
                        lemma_in_use_grows(st.items, item, (x - 1) as usize, i);
                    }
                } else if x != 0 {
                    let k = (x - 1) as usize;
                    assert(index_in_use(st.items, k, st.items.len() as int));
                    lemma_in_use_grows(st.items, item, k, at);
                }
            }
        }
        assert forall|k: usize| k < next.names.len() implies #[trigger] index_in_use(
            more,
            k,
            more.len() as int,
        ) by {
            if k < st.names.len() {
                assert(index_in_use(st.items, k, st.items.len() as int));
                lemma_in_use_grows(st.items, item, k, at);
                let j = choose|j: int| j < at && #[trigger] binds(more, j, k);
                assert(j < more.len() && binds(more, j, k));
            }
        }
    }
}

/// Reading a glyph outside a name keeps the names interned.
proof fn lemma_plain_interned(st: LexState, g: Glyph)
    requires
        interned(st.items, st.names),
        lex_plain(st, g) is Ok,
    ensures
        interned(lex_plain(st, g)->Ok_0.items, lex_plain(st, g)->Ok_0.names),
{
    if let Some(instr) = literal_of(g.ch) {
        lemma_push_interned(st.items, st.names, Pattern::Instruction(instr));
    }
}

/// Reading glyphs keeps the names interned, and no more items are made
/// than glyphs are read.
pub proof fn lemma_lex_first_interned(glyphs: Seq<Glyph>, n: nat)
    requires
        n <= glyphs.len(),
        glyphs.len() < usize::MAX,
        lex_first(glyphs, n) is Ok,
    ensures
        interned(lex_first(glyphs, n)->Ok_0.items, lex_first(glyphs, n)->Ok_0.names),
        lex_first(glyphs, n)->Ok_0.items.len() + (if lex_first(glyphs, n)->Ok_0.pending is Some {
            1nat
        } else {
            0nat
        }) <= n,
    decreases n,
{
    if n > 0 {
        lemma_lex_first_interned(glyphs, (n - 1) as nat);
        let st = lex_first(glyphs, (n - 1) as nat)->Ok_0;
        let g = glyphs[n - 1];
        match st.pending {
            None => {
                lemma_plain_interned(st, g);
            },
            Some(name) => {
                if g.alphanumeric {
                } else if g.ch == '!' {
                    lemma_close_name_interned(st, name, true);
                } else {
                    lemma_close_name_interned(st, name, false);
                    lemma_plain_interned(close_name(st, name, false), g);
                }
            },
        }
    }
}

/// Interning: in a template that was read, no name stands twice in the
/// table, every binding has the index of its name, the first name has
/// index 0, and a binding has a new index only where the index before it
/// is already in use.
pub proof fn law_names_interned(glyphs: Seq<Glyph>)
    requires
        glyphs.len() < usize::MAX,
        lex(glyphs) is Ok,
    ensures
        interned(lex(glyphs)->Ok_0.items, lex(glyphs)->Ok_0.names),
{
    lemma_lex_first_interned(glyphs, glyphs.len());
    let st = lex_first(glyphs, glyphs.len())->Ok_0;
    if let Some(name) = st.pending {
        lemma_close_name_interned(st, name, false);
    }
}

} // verus!
