//! The level-description grammar and its parser.
//!
//! A level is lines of whitespace-separated tokens, one token per grid
//! column. A token reads `ground[:plant[:entity]*]`: the ground code is `w`
//! for water or a digit `0`..`8` for fertile ground with that nutrient
//! (any other code leaves the slot unused, though it still occupies its
//! column); the plant part is `.` followed by a species name; each entity
//! part is `p` for the player or `t.` followed by a target name. The parsed
//! grid is recentred on the text's middle, with y growing upward.

use vstd::prelude::*;

use crate::grid::{has_tile, tile_at, Grid, TileEntry};
use crate::plants::{spec_by_name, PlantDefinition, PlantDefinitions};
use crate::tile::{GameEntity, Ground, Plant, Tile, MAX_NUTRIENT};

verus! {

/// The mathematical shape of a parsed entity.
pub enum GameEntityView {
    Player,
    Target(Seq<char>),
}

/// One parsed tile of a level description. The plant is kept by its stable
/// species name: indices exist only relative to a loaded registry.
#[derive(Debug)]
pub struct LevelEntry {
    pub tile: Tile,
    pub ground: Ground,
    pub plant: Option<String>,
    pub entities: Vec<GameEntity>,
}

/// A parsed level: the tiles in reading order.
#[derive(Debug)]
pub struct LevelTiles(pub Vec<LevelEntry>);

pub open spec fn entity_view(e: GameEntity) -> GameEntityView {
    match e {
        GameEntity::Player => GameEntityView::Player,
        GameEntity::Target(name) => GameEntityView::Target(name@),
    }
}

pub open spec fn plant_view(p: Option<String>) -> Option<Seq<char>> {
    match p {
        Some(name) => Some(name@),
        None => None,
    }
}

pub open spec fn entry_view(e: LevelEntry) -> (Tile, Ground, Option<Seq<char>>, Seq<
    GameEntityView,
>) {
    (e.tile, e.ground, plant_view(e.plant), e.entities@.map_values(|en: GameEntity| entity_view(en)))
}

impl View for LevelTiles {
    type V = Seq<(Tile, Ground, Option<Seq<char>>, Seq<GameEntityView>)>;

    open spec fn view(&self) -> Seq<(Tile, Ground, Option<Seq<char>>, Seq<GameEntityView>)> {
        self.0@.map_values(|e: LevelEntry| entry_view(e))
    }
}

// ----- splitting -----

pub open spec fn is_space(c: char) -> bool {
    c == ' ' || c == '\t' || c == '\r'
}

/// The position of the first line break at or after `from`, or the end.
pub open spec fn line_end(s: Seq<char>, from: int) -> int
    decreases s.len() - from,
{
    if from < 0 || from >= s.len() {
        s.len() as int
    } else if s[from] == '\n' {
        from
    } else {
        line_end(s, from + 1)
    }
}

pub proof fn lemma_line_end(s: Seq<char>, from: int)
    requires
        0 <= from <= s.len(),
    ensures
        from <= line_end(s, from) <= s.len(),
    decreases s.len() - from,
{
    if from < s.len() && s[from] != '\n' {
        lemma_line_end(s, from + 1);
    }
}

/// The lines at or after `from`, split on line breaks. A trailing line
/// break closes the last line without opening a new one.
pub open spec fn split_lines_from(s: Seq<char>, from: int) -> Seq<Seq<char>>
    decreases s.len() - from,
    via split_lines_from_dec
{
    if from < 0 || from >= s.len() {
        Seq::empty()
    } else {
        let e = line_end(s, from);
        if e >= s.len() {
            seq![s.subrange(from, e)]
        } else {
            seq![s.subrange(from, e)] + split_lines_from(s, e + 1)
        }
    }
}

#[via_fn]
proof fn split_lines_from_dec(s: Seq<char>, from: int) {
    if 0 <= from < s.len() {
        lemma_line_end(s, from);
    }
}

/// The first non-space position in `l` at or after `from`, or the end.
pub open spec fn token_start(l: Seq<char>, from: int) -> int
    decreases l.len() - from,
{
    if from < 0 || from >= l.len() {
        l.len() as int
    } else if is_space(l[from]) {
        token_start(l, from + 1)
    } else {
        from
    }
}

/// The first space at or after `from`, or the end.
pub open spec fn token_end(l: Seq<char>, from: int) -> int
    decreases l.len() - from,
{
    if from < 0 || from >= l.len() {
        l.len() as int
    } else if is_space(l[from]) {
        from
    } else {
        token_end(l, from + 1)
    }
}

pub proof fn lemma_token_bounds(l: Seq<char>, from: int)
    requires
        0 <= from <= l.len(),
    ensures
        from <= token_start(l, from) <= l.len(),
        from <= token_end(l, from) <= l.len(),
    decreases l.len() - from,
{
    if from < l.len() {
        lemma_token_bounds(l, from + 1);
    }
}

/// The whitespace-separated tokens of `l` at or after `from`.
pub open spec fn split_ws_from(l: Seq<char>, from: int) -> Seq<Seq<char>>
    decreases l.len() - from,
    via split_ws_from_dec
{
    if from < 0 || from >= l.len() {
        Seq::empty()
    } else {
        let st = token_start(l, from);
        if st >= l.len() {
            Seq::empty()
        } else {
            let e = token_end(l, st);
            seq![l.subrange(st, e)] + split_ws_from(l, e)
        }
    }
}

#[via_fn]
proof fn split_ws_from_dec(l: Seq<char>, from: int) {
    if 0 <= from < l.len() {
        lemma_token_bounds(l, from);
        let st = token_start(l, from);
        if st < l.len() {
            lemma_token_start_nonspace(l, from);
            lemma_token_bounds(l, st);
            assert(token_end(l, st) > st);
        }
    }
}

pub proof fn lemma_token_start_nonspace(l: Seq<char>, from: int)
    requires
        0 <= from <= l.len(),
        token_start(l, from) < l.len(),
    ensures
        !is_space(l[token_start(l, from)]),
        token_end(l, token_start(l, from)) > token_start(l, from),
    decreases l.len() - from,
{
    if from < l.len() && is_space(l[from]) {
        lemma_token_start_nonspace(l, from + 1);
    } else {
        lemma_token_bounds(l, from + 1);
    }
}

/// The position of the first `:` in `tok` at or after `from`, or the end.
pub open spec fn colon_end(tok: Seq<char>, from: int) -> int
    decreases tok.len() - from,
{
    if from < 0 || from >= tok.len() {
        tok.len() as int
    } else if tok[from] == ':' {
        from
    } else {
        colon_end(tok, from + 1)
    }
}

pub proof fn lemma_colon_end(tok: Seq<char>, from: int)
    requires
        0 <= from <= tok.len(),
    ensures
        from <= colon_end(tok, from) <= tok.len(),
    decreases tok.len() - from,
{
    if from < tok.len() && tok[from] != ':' {
        lemma_colon_end(tok, from + 1);
    }
}

/// The `:`-separated parts of `tok` at or after `from`: one part between
/// each pair of colons, so one more part than there are colons.
pub open spec fn split_colons_from(tok: Seq<char>, from: int) -> Seq<Seq<char>>
    decreases tok.len() - from,
    via split_colons_from_dec
{
    if from < 0 || from > tok.len() {
        Seq::empty()
    } else {
        let e = colon_end(tok, from);
        if e >= tok.len() {
            seq![tok.subrange(from, e)]
        } else {
            seq![tok.subrange(from, e)] + split_colons_from(tok, e + 1)
        }
    }
}

#[via_fn]
proof fn split_colons_from_dec(tok: Seq<char>, from: int) {
    if 0 <= from <= tok.len() {
        lemma_colon_end(tok, from);
    }
}

// ----- token meanings -----

/// The ground named by a token's first part: `w` is water, a single digit
/// is fertile ground with that nutrient, anything else is no tile at all.
pub open spec fn ground_of_code(c: Seq<char>) -> Option<Ground> {
    if c.len() == 1 && c[0] == 'w' {
        Some(Ground::Water)
    } else if c.len() == 1 && '0' as int <= c[0] as int <= '8' as int {
        Some(Ground::Fertile((c[0] as int - '0' as int) as u8))
    } else {
        None
    }
}

pub open spec fn trim_dots(s: Seq<char>) -> Seq<char>
    decreases s.len(),
{
    if s.len() > 0 && s[0] == '.' {
        trim_dots(s.drop_first())
    } else {
        s
    }
}

/// The species name in a plant part: a leading `.` marks a plant, and all
/// leading dots are stripped from the name.
pub open spec fn plant_of_part(p: Seq<char>) -> Option<Seq<char>> {
    if p.len() >= 1 && p[0] == '.' {
        Some(trim_dots(p))
    } else {
        None
    }
}

pub open spec fn trim_tdots(s: Seq<char>) -> Seq<char>
    decreases s.len(),
{
    if s.len() >= 2 && s[0] == 't' && s[1] == '.' {
        trim_tdots(s.skip(2))
    } else {
        s
    }
}

/// The entity in an entity part: `p` is the player, a leading `t.` marks a
/// target of the name that follows (every leading `t.` is stripped), and
/// anything else is no entity.
pub open spec fn entity_of_part(p: Seq<char>) -> Option<GameEntityView> {
    if p.len() == 1 && p[0] == 'p' {
        Some(GameEntityView::Player)
    } else if p.len() >= 2 && p[0] == 't' && p[1] == '.' {
        Some(GameEntityView::Target(trim_tdots(p)))
    } else {
        None
    }
}

/// The entities named by the parts at or after position `i`, in order,
/// unrecognised parts skipped.
pub open spec fn entities_of_parts(parts: Seq<Seq<char>>, i: int) -> Seq<GameEntityView>
    decreases parts.len() - i,
{
    if i < 0 || i >= parts.len() {
        Seq::empty()
    } else {
        let rest = entities_of_parts(parts, i + 1);
        match entity_of_part(parts[i]) {
            Some(e) => seq![e] + rest,
            None => rest,
        }
    }
}

/// What one token denotes: its ground, its plant name if any, and its
/// entities — or nothing, when the ground code marks the slot unused.
pub open spec fn token_slot(tok: Seq<char>) -> Option<
    (Ground, Option<Seq<char>>, Seq<GameEntityView>),
> {
    let parts = split_colons_from(tok, 0);
    match ground_of_code(parts[0]) {
        None => None,
        Some(g) => Some(
            (
                g,
                if parts.len() >= 2 {
                    plant_of_part(parts[1])
                } else {
                    None
                },
                entities_of_parts(parts, 2),
            ),
        ),
    }
}

// ----- assembly -----

pub open spec fn spec_max(a: int, b: int) -> int {
    if a >= b {
        a
    } else {
        b
    }
}

/// The largest token column used by the lines at or after position `i`.
pub open spec fn lines_max_x(lines: Seq<Seq<char>>, i: int) -> int
    decreases lines.len() - i,
{
    if i < 0 || i >= lines.len() {
        0
    } else {
        let toks = split_ws_from(lines[i], 0);
        let rest = lines_max_x(lines, i + 1);
        if toks.len() > 0 {
            spec_max(toks.len() - 1, rest)
        } else {
            rest
        }
    }
}

/// The entries denoted by the tokens at or after column `x` of line `y`.
pub open spec fn tokens_entries(
    toks: Seq<Seq<char>>,
    x: int,
    y: int,
    xo: int,
    yo: int,
) -> Seq<(Tile, Ground, Option<Seq<char>>, Seq<GameEntityView>)>
    decreases toks.len() - x,
{
    if x < 0 || x >= toks.len() {
        Seq::empty()
    } else {
        let rest = tokens_entries(toks, x + 1, y, xo, yo);
        match token_slot(toks[x]) {
            Some(slot) => seq![
                (Tile((x - xo) as i32, (yo - y) as i32), slot.0, slot.1, slot.2),
            ] + rest,
            None => rest,
        }
    }
}

/// The entries denoted by the lines at or after position `y`.
pub open spec fn lines_entries(lines: Seq<Seq<char>>, y: int, xo: int, yo: int) -> Seq<
    (Tile, Ground, Option<Seq<char>>, Seq<GameEntityView>),
>
    decreases lines.len() - y,
{
    if y < 0 || y >= lines.len() {
        Seq::empty()
    } else {
        tokens_entries(split_ws_from(lines[y], 0), 0, y, xo, yo) + lines_entries(
            lines,
            y + 1,
            xo,
            yo,
        )
    }
}

/// The meaning of a whole level text: its entries in reading order,
/// recentred on the text's middle.
pub open spec fn level_view(s: Seq<char>) -> Seq<
    (Tile, Ground, Option<Seq<char>>, Seq<GameEntityView>),
> {
    let lines = split_lines_from(s, 0);
    let xo = lines_max_x(lines, 0) / 2;
    let yo = if lines.len() == 0 {
        0int
    } else {
        (lines.len() - 1) / 2
    };
    lines_entries(lines, 0, xo, yo)
}

pub open spec fn entries_view(v: Seq<LevelEntry>) -> Seq<
    (Tile, Ground, Option<Seq<char>>, Seq<GameEntityView>),
> {
    v.map_values(|e: LevelEntry| entry_view(e))
}

// ----- the scanners -----

use vstd::string::StrSliceExecFns;

fn find_line_end(s: &str, from: usize, n: usize) -> (e: usize)
    requires
        n == s@.len(),
        from <= n,
    ensures
        e == line_end(s@, from as int),
        from <= e <= n,
{
    let mut i = from;
    while i < n
        invariant
            n == s@.len(),
            from <= i <= n,
            line_end(s@, from as int) == line_end(s@, i as int),
        decreases n - i,
    {
        if s.get_char(i) == '\n' {
            return i;
        }
        proof {
            assert(line_end(s@, i as int) == line_end(s@, i as int + 1));
        }
        i += 1;
    }
    i
}

fn find_token_start(s: &str, from: usize, n: usize) -> (e: usize)
    requires
        n == s@.len(),
        from <= n,
    ensures
        e == token_start(s@, from as int),
        from <= e <= n,
{
    let mut i = from;
    while i < n
        invariant
            n == s@.len(),
            from <= i <= n,
            token_start(s@, from as int) == token_start(s@, i as int),
        decreases n - i,
    {
        let c = s.get_char(i);
        if !(c == ' ' || c == '\t' || c == '\r') {
            return i;
        }
        proof {
            assert(token_start(s@, i as int) == token_start(s@, i as int + 1));
        }
        i += 1;
    }
    i
}

fn find_token_end(s: &str, from: usize, n: usize) -> (e: usize)
    requires
        n == s@.len(),
        from <= n,
    ensures
        e == token_end(s@, from as int),
        from <= e <= n,
{
    let mut i = from;
    while i < n
        invariant
            n == s@.len(),
            from <= i <= n,
            token_end(s@, from as int) == token_end(s@, i as int),
        decreases n - i,
    {
        let c = s.get_char(i);
        if c == ' ' || c == '\t' || c == '\r' {
            return i;
        }
        proof {
            assert(token_end(s@, i as int) == token_end(s@, i as int + 1));
        }
        i += 1;
    }
    i
}

fn find_colon(s: &str, from: usize, n: usize) -> (e: usize)
    requires
        n == s@.len(),
        from <= n,
    ensures
        e == colon_end(s@, from as int),
        from <= e <= n,
{
    let mut i = from;
    while i < n
        invariant
            n == s@.len(),
            from <= i <= n,
            colon_end(s@, from as int) == colon_end(s@, i as int),
        decreases n - i,
    {
        if s.get_char(i) == ':' {
            return i;
        }
        proof {
            assert(colon_end(s@, i as int) == colon_end(s@, i as int + 1));
        }
        i += 1;
    }
    i
}

// ----- the part parsers -----

fn parse_ground(code: &str) -> (r: Option<Ground>)
    ensures
        r == ground_of_code(code@),
        match r {
            Some(g) => g.wf(),
            None => true,
        },
{
    let n = code.unicode_len();
    if n != 1 {
        return None;
    }
    let c = code.get_char(0);
    if c == 'w' {
        Some(Ground::Water)
    } else {
        let u = c as u32;
        if 48 <= u && u <= 56 {
            Some(Ground::Fertile((u - 48) as u8))
        } else {
            None
        }
    }
}

fn parse_plant_part(part: &str) -> (r: Option<String>)
    ensures
        plant_of_part(part@) == plant_view(r),
{
    let n = part.unicode_len();
    if n >= 1 && part.get_char(0) == '.' {
        proof {
            assert(part@.skip(0) =~= part@);
        }
        let mut q: usize = 0;
        while q < n && part.get_char(q) == '.'
            invariant
                n == part@.len(),
                q <= n,
                trim_dots(part@) == trim_dots(part@.skip(q as int)),
            decreases n - q,
        {
            proof {
                assert(part@.skip(q as int).drop_first() =~= part@.skip(q as int + 1));
            }
            q += 1;
        }
        proof {
            assert(trim_dots(part@.skip(q as int)) == part@.skip(q as int));
        }
        let name = part.substring_char(q, n);
        proof {
            assert(name@ =~= part@.skip(q as int));
        }
        Some(name.to_owned())
    } else {
        None
    }
}

fn parse_entity_part(part: &str) -> (r: Option<GameEntity>)
    ensures
        match r {
            Some(en) => entity_of_part(part@) == Some(entity_view(en)),
            None => entity_of_part(part@) is None,
        },
{
    let n = part.unicode_len();
    if n == 1 && part.get_char(0) == 'p' {
        Some(GameEntity::Player)
    } else if n >= 2 && part.get_char(0) == 't' && part.get_char(1) == '.' {
        proof {
            assert(part@.skip(0) =~= part@);
        }
        let mut q: usize = 0;
        while q < n && q + 1 < n && part.get_char(q) == 't' && part.get_char(q + 1) == '.'
            invariant
                n == part@.len(),
                q <= n,
                trim_tdots(part@) == trim_tdots(part@.skip(q as int)),
            decreases n - q,
        {
            proof {
                assert(part@.skip(q as int).skip(2) =~= part@.skip(q as int + 2));
            }
            q += 2;
        }
        proof {
            assert(trim_tdots(part@.skip(q as int)) == part@.skip(q as int));
        }
        let name = part.substring_char(q, n);
        proof {
            assert(name@ =~= part@.skip(q as int));
        }
        Some(GameEntity::Target(name.to_owned()))
    } else {
        None
    }
}

/// Index shifting for entity lists: the entities of aligned tails agree.
proof fn lemma_entities_align(ps: Seq<Seq<char>>, t: Seq<Seq<char>>, i: int, j: int)
    requires
        0 <= i,
        0 <= j,
        ps.len() - i == t.len() - j,
        forall|k: int| i <= k < ps.len() ==> #[trigger] ps[k] == t[k - i + j],
    ensures
        entities_of_parts(ps, i) == entities_of_parts(t, j),
    decreases ps.len() - i,
{
    if i < ps.len() {
        lemma_entities_align(ps, t, i + 1, j + 1);
        assert(ps[i] == t[j]);
    }
}

// ----- the token parser -----

fn parse_token(tok: &str) -> (r: Option<(Ground, Option<String>, Vec<GameEntity>)>)
    ensures
        match r {
            Some(t3) => token_slot(tok@) == Some(
                (t3.0, plant_view(t3.1), t3.2@.map_values(|en: GameEntity| entity_view(en))),
            ) && t3.0.wf(),
            None => token_slot(tok@) is None,
        },
{
    let n = tok.unicode_len();
    let ghost parts = split_colons_from(tok@, 0);
    let c1 = find_colon(tok, 0, n);
    proof {
        assert(parts[0] == tok@.subrange(0, c1 as int));
    }
    let gopt = parse_ground(tok.substring_char(0, c1));
    let g = match gopt {
        None => {
            return None;
        },
        Some(g) => g,
    };

    let mut plant: Option<String> = None;
    let mut entities: Vec<GameEntity> = Vec::new();
    if c1 < n {
        let c2 = find_colon(tok, c1 + 1, n);
        proof {
            assert(parts =~= seq![tok@.subrange(0, c1 as int)] + split_colons_from(
                tok@,
                c1 as int + 1,
            ));
            assert(parts[1] == tok@.subrange(c1 as int + 1, c2 as int));
        }
        plant = parse_plant_part(tok.substring_char(c1 + 1, c2));

        let mut q = c2;
        let ghost mut pi: int = 2;
        proof {
            if c2 < n {
                assert(parts.skip(2) =~= split_colons_from(tok@, c2 as int + 1));
            } else {
                assert(parts.len() == 2);
            }
        }
        while q < n
            invariant
                n == tok@.len(),
                q <= n,
                parts == split_colons_from(tok@, 0),
                2 <= pi <= parts.len(),
                q < n ==> parts.skip(pi) =~= split_colons_from(tok@, q as int + 1),
                q >= n ==> pi == parts.len(),
                entities_of_parts(parts, 2) == entities@.map_values(
                    |en: GameEntity| entity_view(en),
                ) + entities_of_parts(parts, pi),
            decreases n - q,
        {
            let e2 = find_colon(tok, q + 1, n);
            let part = tok.substring_char(q + 1, e2);
            let ghost rem = split_colons_from(tok@, q as int + 1);
            proof {
                assert(rem[0] == tok@.subrange(q as int + 1, e2 as int));
                assert(parts.skip(pi).len() == parts.len() - pi);
                assert(rem.len() >= 1);
                assert(pi < parts.len());
                assert(parts.skip(pi)[0] == parts[pi]);
                assert(parts[pi] == rem[0]);
                assert(part@ == parts[pi]);
                assert(parts.skip(pi).drop_first() =~= parts.skip(pi + 1));
                if e2 < n {
                    assert(rem =~= seq![rem[0]] + split_colons_from(tok@, e2 as int + 1));
                    assert(rem.drop_first() =~= split_colons_from(tok@, e2 as int + 1));
                    assert(parts.skip(pi + 1) =~= split_colons_from(tok@, e2 as int + 1));
                    assert(pi + 1 <= parts.len());
                } else {
                    assert(rem =~= seq![rem[0]]);
                    assert(pi + 1 == parts.len());
                }
            }
            let ghost ents0 = entities@;
            match parse_entity_part(part) {
                Some(en) => {
                    entities.push(en);
                    proof {
                        assert(entities@.map_values(|en2: GameEntity| entity_view(en2)) =~= ents0
                            .map_values(|en2: GameEntity| entity_view(en2)).push(entity_view(en)));
                        assert(entities_of_parts(parts, pi) == seq![entity_view(en)]
                            + entities_of_parts(parts, pi + 1));
                    }
                },
                None => {
                    proof {
                        assert(entities_of_parts(parts, pi) == entities_of_parts(parts, pi + 1));
                    }
                },
            }
            proof {
                pi = pi + 1;
            }
            q = e2;
        }
    } else {
        proof {
            assert(parts =~= seq![tok@.subrange(0, c1 as int)]);
            assert(entities_of_parts(parts, 2) =~= Seq::<GameEntityView>::empty());
        }
    }
    proof {
        assert(entities_of_parts(parts, 2) =~= entities@.map_values(
            |en: GameEntity| entity_view(en),
        ));
    }
    Some((g, plant, entities))
}

// ----- lines -----

proof fn lemma_lines_max_x_nonneg(lines: Seq<Seq<char>>, i: int)
    ensures
        lines_max_x(lines, i) >= 0,
    decreases lines.len() - i,
{
    if 0 <= i < lines.len() {
        lemma_lines_max_x_nonneg(lines, i + 1);
    }
}

/// How many tokens one line holds.
fn count_tokens(line: &str) -> (c: usize)
    ensures
        c == split_ws_from(line@, 0).len(),
        c <= line@.len(),
{
    let n = line.unicode_len();
    let mut cnt: usize = 0;
    let mut q: usize = 0;
    while q < n
        invariant
            n == line@.len(),
            q <= n,
            cnt <= q,
            split_ws_from(line@, 0).len() == cnt + split_ws_from(line@, q as int).len(),
        decreases n - q,
    {
        let st = find_token_start(line, q, n);
        if st >= n {
            proof {
                assert(split_ws_from(line@, q as int).len() == 0);
            }
            q = n;
        } else {
            proof {
                lemma_token_start_nonspace(line@, q as int);
            }
            let e = find_token_end(line, st, n);
            proof {
                assert(split_ws_from(line@, q as int) == seq![line@.subrange(st as int, e as int)]
                    + split_ws_from(line@, e as int));
            }
            cnt = cnt + 1;
            q = e;
        }
    }
    cnt
}

/// Parse one line's tokens, appending its entries to `out`.
fn parse_line(line: &str, y: usize, xo: usize, yo: usize, out: &mut Vec<LevelEntry>)
    requires
        line@.len() <= i32::MAX as int,
        y <= i32::MAX as int,
        xo <= i32::MAX as int,
        yo <= i32::MAX as int,
    ensures
        entries_view(final(out)@) == entries_view(old(out)@) + tokens_entries(
            split_ws_from(line@, 0),
            0,
            y as int,
            xo as int,
            yo as int,
        ),
        forall|i: int| 0 <= i < old(out)@.len() ==> final(out)@[i] == old(out)@[i],
        forall|i: int|
            old(out)@.len() <= i < final(out)@.len() ==> (#[trigger] final(out)@[i]).ground.wf(),
{
    let n = line.unicode_len();
    let ghost toks = split_ws_from(line@, 0);
    let ghost out0 = out@;
    proof {
        assert(toks.skip(0) =~= toks);
    }
    let mut q: usize = 0;
    let mut x: usize = 0;
    while q < n
        invariant
            n == line@.len(),
            n <= i32::MAX as int,
            y <= i32::MAX as int,
            xo <= i32::MAX as int,
            yo <= i32::MAX as int,
            q <= n,
            x <= q,
            x <= toks.len(),
            toks == split_ws_from(line@, 0),
            toks.skip(x as int) =~= split_ws_from(line@, q as int),
            entries_view(out@) + tokens_entries(toks, x as int, y as int, xo as int, yo as int)
                == entries_view(out0) + tokens_entries(toks, 0, y as int, xo as int, yo as int),
            out0.len() <= out@.len(),
            forall|i: int| 0 <= i < out0.len() ==> out@[i] == out0[i],
            forall|i: int| out0.len() <= i < out@.len() ==> (#[trigger] out@[i]).ground.wf(),
        decreases n - q,
    {
        let st = find_token_start(line, q, n);
        if st >= n {
            proof {
                assert(split_ws_from(line@, q as int) =~= Seq::<Seq<char>>::empty());
                assert(toks.skip(x as int).len() == 0);
                assert(x == toks.len());
                assert(tokens_entries(toks, x as int, y as int, xo as int, yo as int)
                    =~= Seq::<(Tile, Ground, Option<Seq<char>>, Seq<GameEntityView>)>::empty());
            }
            q = n;
        } else {
            proof {
                lemma_token_start_nonspace(line@, q as int);
            }
            let e = find_token_end(line, st, n);
            let tok = line.substring_char(st, e);
            proof {
                assert(split_ws_from(line@, q as int) == seq![line@.subrange(st as int, e as int)]
                    + split_ws_from(line@, e as int));
                assert(x < toks.len());
                assert(toks.skip(x as int)[0] == toks[x as int]);
                assert(tok@ == toks[x as int]);
                assert(toks.skip(x as int).drop_first() =~= toks.skip(x as int + 1));
                assert(toks.skip(x as int + 1) =~= split_ws_from(line@, e as int));
            }
            let ghost outb = out@;
            match parse_token(tok) {
                Some(t3) => {
                    let tx: i64 = x as i64 - xo as i64;
                    let ty: i64 = yo as i64 - y as i64;
                    let entry = LevelEntry {
                        tile: Tile(tx as i32, ty as i32),
                        ground: t3.0,
                        plant: t3.1,
                        entities: t3.2,
                    };
                    proof {
                        assert(tx as int == x as int - xo as int);
                        assert(ty as int == yo as int - y as int);
                    }
                    out.push(entry);
                    proof {
                        assert(entries_view(out@) =~= entries_view(outb).push(entry_view(entry)));
                        assert(tokens_entries(toks, x as int, y as int, xo as int, yo as int)
                            == seq![entry_view(entry)] + tokens_entries(
                            toks,
                            x as int + 1,
                            y as int,
                            xo as int,
                            yo as int,
                        ));
                        assert(entries_view(out@) + tokens_entries(
                            toks,
                            x as int + 1,
                            y as int,
                            xo as int,
                            yo as int,
                        ) =~= entries_view(outb) + tokens_entries(
                            toks,
                            x as int,
                            y as int,
                            xo as int,
                            yo as int,
                        ));
                    }
                },
                None => {
                    proof {
                        assert(tokens_entries(toks, x as int, y as int, xo as int, yo as int)
                            == tokens_entries(toks, x as int + 1, y as int, xo as int, yo as int));
                    }
                },
            }
            x += 1;
            q = e;
        }
    }
    proof {
        assert(tokens_entries(toks, x as int, y as int, xo as int, yo as int)
            =~= Seq::<(Tile, Ground, Option<Seq<char>>, Seq<GameEntityView>)>::empty());
        assert(entries_view(out@) =~= entries_view(out0) + tokens_entries(
            toks,
            0,
            y as int,
            xo as int,
            yo as int,
        ));
    }
}

impl LevelTiles {
    /// Every parsed ground is valid.
    pub open spec fn wf(self) -> bool {
        forall|i: int| 0 <= i < self.0@.len() ==> (#[trigger] self.0@[i]).ground.wf()
    }

    /// Parse a level description into its tiles. The grammar is the one
    /// `level_view` defines: lines of whitespace-separated tokens
    /// `ground[:plant[:entity]*]`, recentred on the text's middle with y
    /// growing upward.
    pub fn from_str(s: &str) -> (r: LevelTiles)
        requires
            s@.len() <= i32::MAX as int,
        ensures
            r@ == level_view(s@),
            r.wf(),
    {
        let n = s.unicode_len();
        let ghost lines = split_lines_from(s@, 0);

        let mut mx: usize = 0;
        let mut line_count: usize = 0;
        let mut p: usize = 0;
        let ghost mut li: int = 0;
        proof {
            lemma_lines_max_x_nonneg(lines, 0);
            assert(lines.skip(0) =~= lines);
        }
        while p < n
            invariant
                n == s@.len(),
                p <= n,
                0 <= li <= lines.len(),
                line_count == li,
                lines == split_lines_from(s@, 0),
                lines.skip(li) =~= split_lines_from(s@, p as int),
                lines_max_x(lines, 0) == spec_max(mx as int, lines_max_x(lines, li)),
                mx <= n,
                li <= p,
            decreases n - p,
        {
            let e = find_line_end(s, p, n);
            let line = s.substring_char(p, e);
            proof {
                assert(split_lines_from(s@, p as int).len() >= 1);
                assert(li < lines.len());
                assert(lines.skip(li)[0] == lines[li]);
                assert(line@ == lines[li]);
                assert(lines.skip(li).drop_first() =~= lines.skip(li + 1));
                if e < n {
                    assert(lines.skip(li + 1) =~= split_lines_from(s@, e as int + 1));
                } else {
                    assert(lines.skip(li).len() == 1);
                    assert(li + 1 == lines.len());
                }
                lemma_lines_max_x_nonneg(lines, li + 1);
            }
            let t = count_tokens(line);
            proof {
                assert(t <= line@.len());
                assert(lines_max_x(lines, li) == if t > 0 {
                    spec_max(t - 1, lines_max_x(lines, li + 1))
                } else {
                    lines_max_x(lines, li + 1)
                });
            }
            if t > 0 && t - 1 > mx {
                mx = t - 1;
            }
            proof {
                li = li + 1;
            }
            line_count += 1;
            if e >= n {
                p = n;
            } else {
                p = e + 1;
            }
        }
        proof {
            assert(lines.skip(li).len() == 0);
            assert(li == lines.len());
            assert(lines_max_x(lines, li) == 0);
            assert(mx as int == lines_max_x(lines, 0));
            assert(line_count == lines.len());
        }

        let xo = mx / 2;
        let yo = if line_count == 0 {
            0
        } else {
            (line_count - 1) / 2
        };

        let mut out: Vec<LevelEntry> = Vec::new();
        let mut y: usize = 0;
        let mut p2: usize = 0;
        let ghost mut li2: int = 0;
        proof {
            assert(lines.skip(0) =~= lines);
            assert(entries_view(out@) =~= Seq::<
                (Tile, Ground, Option<Seq<char>>, Seq<GameEntityView>),
            >::empty());
        }
        while p2 < n
            invariant
                n == s@.len(),
                n <= i32::MAX as int,
                p2 <= n,
                0 <= li2 <= lines.len(),
                y == li2,
                y <= p2,
                xo <= i32::MAX as int,
                yo <= i32::MAX as int,
                lines == split_lines_from(s@, 0),
                lines.skip(li2) =~= split_lines_from(s@, p2 as int),
                entries_view(out@) + lines_entries(lines, li2, xo as int, yo as int)
                    == lines_entries(lines, 0, xo as int, yo as int),
                forall|i: int| 0 <= i < out@.len() ==> (#[trigger] out@[i]).ground.wf(),
            decreases n - p2,
        {
            let e = find_line_end(s, p2, n);
            let line = s.substring_char(p2, e);
            proof {
                assert(split_lines_from(s@, p2 as int).len() >= 1);
                assert(li2 < lines.len());
                assert(lines.skip(li2)[0] == lines[li2]);
                assert(line@ == lines[li2]);
                assert(lines.skip(li2).drop_first() =~= lines.skip(li2 + 1));
                if e < n {
                    assert(lines.skip(li2 + 1) =~= split_lines_from(s@, e as int + 1));
                } else {
                    assert(lines.skip(li2).len() == 1);
                    assert(li2 + 1 == lines.len());
                }
            }
            let ghost outb = out@;
            parse_line(line, y, xo, yo, &mut out);
            proof {
                assert(lines_entries(lines, li2, xo as int, yo as int) == tokens_entries(
                    split_ws_from(lines[li2], 0),
                    0,
                    li2,
                    xo as int,
                    yo as int,
                ) + lines_entries(lines, li2 + 1, xo as int, yo as int));
                assert(entries_view(out@) + lines_entries(lines, li2 + 1, xo as int, yo as int)
                    =~= entries_view(outb) + lines_entries(lines, li2, xo as int, yo as int));
                li2 = li2 + 1;
            }
            y += 1;
            if e >= n {
                p2 = n;
            } else {
                p2 = e + 1;
            }
        }
        proof {
            assert(lines.skip(li2).len() == 0);
            assert(li2 == lines.len());
            assert(lines_entries(lines, li2, xo as int, yo as int) =~= Seq::<
                (Tile, Ground, Option<Seq<char>>, Seq<GameEntityView>),
            >::empty());
            assert(entries_view(out@) =~= lines_entries(lines, 0, xo as int, yo as int));
            assert(xo as int == lines_max_x(lines, 0) / 2);
            if lines.len() == 0 {
                assert(yo == 0);
            } else {
                assert(yo as int == (lines.len() - 1) / 2);
            }
        }
        LevelTiles(out)
    }
}

// ----- building the grid -----

/// The plant a level entry resolves to against a loaded registry: its
/// species looked up by name, or nothing when the registry does not know
/// the name.
pub open spec fn resolve_plant(defs: Seq<PlantDefinition>, p: Option<Seq<char>>) -> Plant {
    match p {
        None => Plant::Empty,
        Some(name) => match spec_by_name(defs, name) {
            Some(i) => Plant::Species(i as usize),
            None => Plant::Empty,
        },
    }
}

/// The grid entry a parsed level entry becomes at tile `t`.
pub open spec fn resolved_entry(
    defs: Seq<PlantDefinition>,
    t: Tile,
    e: (Tile, Ground, Option<Seq<char>>, Seq<GameEntityView>),
) -> TileEntry {
    TileEntry { tile: t, ground: e.1, plant: resolve_plant(defs, e.2) }
}

/// The last entry for tile `t`, if any: when a level names a tile twice,
/// the later entry wins.
pub open spec fn last_entry(
    v: Seq<(Tile, Ground, Option<Seq<char>>, Seq<GameEntityView>)>,
    t: Tile,
) -> Option<(Tile, Ground, Option<Seq<char>>, Seq<GameEntityView>)>
    decreases v.len(),
{
    if v.len() == 0 {
        None
    } else if v.last().0 == t {
        Some(v.last())
    } else {
        last_entry(v.drop_last(), t)
    }
}

impl LevelTiles {
    /// Build the initial grid from the parsed tiles, each plant resolved
    /// by its stable name against the registry.
    pub fn to_grid(&self, plants: &PlantDefinitions) -> (g: Grid)
        requires
            self.wf(),
        ensures
            g.wf(),
            forall|t: Tile|
                tile_at(g@, t) == match last_entry(self@, t) {
                    Some(e) => Some(resolved_entry(plants.definitions@, t, e)),
                    None => None::<TileEntry>,
                },
    {
        let mut g = Grid::new();
        let n = self.0.len();
        let mut i: usize = 0;
        proof {
            assert forall|t: Tile| tile_at(g@, t) is None by {
                assert(!has_tile(g@, t));
            }
            assert(self@.subrange(0, 0) =~= Seq::<
                (Tile, Ground, Option<Seq<char>>, Seq<GameEntityView>),
            >::empty());
        }
        while i < n
            invariant
                g.wf(),
                n == self.0@.len(),
                i <= n,
                self.wf(),
                forall|t: Tile|
                    tile_at(g@, t) == match last_entry(self@.subrange(0, i as int), t) {
                        Some(e) => Some(resolved_entry(plants.definitions@, t, e)),
                        None => None::<TileEntry>,
                    },
            decreases n - i,
        {
            let e = &self.0[i];
            let p2 = match &e.plant {
                Some(name) => match plants.by_name(name) {
                    Some(idx) => Plant::Species(idx),
                    None => Plant::Empty,
                },
                None => Plant::Empty,
            };
            let ghost g0 = g@;
            let ghost pre = self@.subrange(0, i as int);
            let ghost now = self@.subrange(0, i as int + 1);
            proof {
                assert(self@[i as int] == entry_view(self.0@[i as int]));
                assert(p2 == resolve_plant(plants.definitions@, self@[i as int].2));
                assert(self.0@[i as int].ground.wf());
            }
            g.set(e.tile, e.ground, p2);
            proof {
                assert(now.drop_last() =~= pre);
                assert(now.last() == self@[i as int]);
                assert forall|t: Tile|
                    tile_at(g@, t) == (match last_entry(now, t) {
                        Some(en) => Some(resolved_entry(plants.definitions@, t, en)),
                        None => None::<TileEntry>,
                    }) by {
                    if t == self.0@[i as int].tile {
                        assert(last_entry(now, t) == Some(now.last()));
                    } else {
                        assert(last_entry(now, t) == last_entry(pre, t));
                        assert(tile_at(g@, t) == tile_at(g0, t));
                    }
                }
            }
            i += 1;
        }
        proof {
            assert(self@.subrange(0, n as int) =~= self@);
        }
        g
    }
}

} // verus!
