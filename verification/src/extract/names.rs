//! Recognition of expert tensors by their names.

use crate::text::{chars_of, contains, ends_with, find, parse_decimal, same_text, split, split_once,
    strip_prefix, strip_suffix};
use vstd::prelude::*;
use vstd::slice::slice_subrange;

verus! {

/// The three matrices of an expert's feed-forward network.
#[derive(Clone, Copy, Debug, PartialEq, Eq, Structural)]
pub enum Projection {
    Gate,
    Up,
    Down,
}

impl Projection {
    pub open spec fn spec_text(self) -> Seq<char> {
        match self {
            Projection::Gate => "gate"@,
            Projection::Up => "up"@,
            Projection::Down => "down"@,
        }
    }

    pub fn text(self) -> (t: &'static str)
        ensures
            t@ == self.spec_text(),
    {
        match self {
            Projection::Gate => "gate",
            Projection::Up => "up",
            Projection::Down => "down",
        }
    }
}

// ── The grammar ──────────────────────────────────────────────────────────────

/// The projection a matrix name stands for.
pub open spec fn projection_named(name: Seq<char>) -> Option<Projection> {
    if name == "w1"@ || name == "gate_proj"@ {
        Some(Projection::Gate)
    } else if name == "w3"@ || name == "up_proj"@ {
        Some(Projection::Up)
    } else if name == "w2"@ || name == "down_proj"@ {
        Some(Projection::Down)
    } else {
        None
    }
}

/// `{E}.weight` as one expert's matrix.
pub open spec fn numbered(tail: Seq<char>, p: Projection) -> Option<(usize, Projection)> {
    match crate::text::before_suffix(tail, ".weight"@) {
        Some(digits) => match crate::text::decimal_value(digits) {
            Some(expert) => Some((expert, p)),
            None => None,
        },
        None => None,
    }
}

/// What follows `blk.{L}.`: `ffn_{proj}.{E}.weight` for one expert, or
/// `ffn_{proj}_exps.weight` for all experts fused, which counts as expert 0.
pub open spec fn block_part(tail: Seq<char>) -> Option<(usize, Projection)> {
    if let Some(t) = crate::text::after_prefix(tail, "ffn_gate."@) {
        numbered(t, Projection::Gate)
    } else if let Some(t) = crate::text::after_prefix(tail, "ffn_up."@) {
        numbered(t, Projection::Up)
    } else if let Some(t) = crate::text::after_prefix(tail, "ffn_down."@) {
        numbered(t, Projection::Down)
    } else if tail == "ffn_gate_exps.weight"@ {
        Some((0, Projection::Gate))
    } else if tail == "ffn_up_exps.weight"@ {
        Some((0, Projection::Up))
    } else if tail == "ffn_down_exps.weight"@ {
        Some((0, Projection::Down))
    } else {
        None
    }
}

/// What follows `blk.`.
pub open spec fn block_tensor(rest: Seq<char>) -> Option<(usize, usize, Projection)> {
    match crate::text::cut(rest, '.') {
        Some((l, tail)) => match (crate::text::decimal_value(l), block_part(tail)) {
            (Some(layer), Some((expert, p))) => Some((layer, expert, p)),
            _ => None,
        },
        None => None,
    }
}

/// Position of the first part equal to `word`, or the number of parts.
pub open spec fn first_part(parts: Seq<Seq<char>>, word: Seq<char>) -> nat
    decreases parts.len(),
{
    if parts.len() == 0 || parts[0] == word {
        0
    } else {
        1 + first_part(parts.drop_first(), word)
    }
}

/// What follows `model.layers.`: `{L}. … .experts.{E}.{proj}` with at least four
/// dot-separated parts.
pub open spec fn layers_tensor(rest: Seq<char>) -> Option<(usize, usize, Projection)> {
    let ps = crate::text::parts(rest, '.');
    let at = first_part(ps, "experts"@) as int;
    if ps.len() < 4 || at + 2 >= ps.len() {
        None
    } else {
        match (
            crate::text::decimal_value(ps[0]),
            crate::text::decimal_value(ps[at + 1]),
            projection_named(ps[at + 2]),
        ) {
            (Some(layer), Some(expert), Some(p)) => Some((layer, expert, p)),
            _ => None,
        }
    }
}

/// `{proj}.weight`, or `{proj}` alone.
pub open spec fn weight_named(name: Seq<char>) -> Option<Projection> {
    match crate::text::before_suffix(name, ".weight"@) {
        Some(stem) => projection_named(stem),
        None => projection_named(name),
    }
}

/// What follows `.experts.`: `{E}.{proj}.weight`.
pub open spec fn expert_part(tail: Seq<char>) -> Option<(usize, Projection)> {
    match crate::text::cut(tail, '.') {
        Some((e, name)) => match (crate::text::decimal_value(e), weight_named(name)) {
            (Some(expert), Some(p)) => Some((expert, p)),
            _ => None,
        },
        None => None,
    }
}

/// What follows `transformer.h.`: `{L}. … .experts.{E}.{proj}.weight`.
pub open spec fn transformer_tensor(rest: Seq<char>) -> Option<(usize, usize, Projection)> {
    match crate::text::cut(rest, '.') {
        Some((l, tail)) => match crate::text::first_occurrence(tail, ".experts."@, 0) {
            Some(at) => match (
                crate::text::decimal_value(l),
                expert_part(tail.skip(at + ".experts."@.len())),
            ) {
                (Some(layer), Some((expert, p))) => Some((layer, expert, p)),
                _ => None,
            },
            None => None,
        },
        None => None,
    }
}

/// Layer, expert and projection of an expert tensor.
pub open spec fn expert_tensor(name: Seq<char>) -> Option<(usize, usize, Projection)> {
    if let Some(rest) = crate::text::after_prefix(name, "blk."@) {
        block_tensor(rest)
    } else if let Some(rest) = crate::text::after_prefix(name, "model.layers."@) {
        layers_tensor(rest)
    } else if let Some(rest) = crate::text::after_prefix(name, "transformer.h."@) {
        transformer_tensor(rest)
    } else {
        None
    }
}

/// Whether a name is that of a router gate.
pub open spec fn router_gate(name: Seq<char>) -> bool {
    ||| crate::text::occurs(name, "ffn_gate_inp"@)
    ||| crate::text::ends(name, ".block_sparse_moe.gate.weight"@)
    ||| crate::text::occurs(name, ".gate."@) && !crate::text::occurs(name, "experts"@)
}

// ── The parser ───────────────────────────────────────────────────────────────

fn projection(name: &[char]) -> (r: Option<Projection>)
    ensures
        r == projection_named(name@),
{
    if same_text(name, "w1") || same_text(name, "gate_proj") {
        Some(Projection::Gate)
    } else if same_text(name, "w3") || same_text(name, "up_proj") {
        Some(Projection::Up)
    } else if same_text(name, "w2") || same_text(name, "down_proj") {
        Some(Projection::Down)
    } else {
        None
    }
}

fn parse_numbered(tail: &[char], p: Projection) -> (r: Option<(usize, Projection)>)
    ensures
        r == numbered(tail@, p),
{
    match strip_suffix(tail, ".weight") {
        Some(digits) => match parse_decimal(digits) {
            Some(expert) => Some((expert, p)),
            None => None,
        },
        None => None,
    }
}

fn parse_block_part(tail: &[char]) -> (r: Option<(usize, Projection)>)
    ensures
        r == block_part(tail@),
{
    if let Some(t) = strip_prefix(tail, "ffn_gate.") {
        return parse_numbered(t, Projection::Gate);
    }
    if let Some(t) = strip_prefix(tail, "ffn_up.") {
        return parse_numbered(t, Projection::Up);
    }
    if let Some(t) = strip_prefix(tail, "ffn_down.") {
        return parse_numbered(t, Projection::Down);
    }
    if same_text(tail, "ffn_gate_exps.weight") {
        Some((0, Projection::Gate))
    } else if same_text(tail, "ffn_up_exps.weight") {
        Some((0, Projection::Up))
    } else if same_text(tail, "ffn_down_exps.weight") {
        Some((0, Projection::Down))
    } else {
        None
    }
}

fn parse_block(rest: &[char]) -> (r: Option<(usize, usize, Projection)>)
    ensures
        r == block_tensor(rest@),
{
    let (l, tail) = match split_once(rest, '.') {
        Some(p) => p,
        None => {
            return None;
        },
    };
    match (parse_decimal(l), parse_block_part(tail)) {
        (Some(layer), Some((expert, p))) => Some((layer, expert, p)),
        _ => None,
    }
}

proof fn lemma_first_part(parts: Seq<Seq<char>>, word: Seq<char>, at: int)
    requires
        0 <= at <= parts.len(),
        at < parts.len() ==> parts[at] == word,
        forall|i: int| 0 <= i < at ==> parts[i] != word,
    ensures
        first_part(parts, word) == at,
    decreases at,
{
    if at > 0 {
        let rest = parts.drop_first();
        assert forall|i: int| 0 <= i < at - 1 implies rest[i] != word by {
            assert(rest[i] == parts[i + 1]);
        }
        lemma_first_part(rest, word, at - 1);
    }
}

fn parse_layers(rest: &[char]) -> (r: Option<(usize, usize, Projection)>)
    ensures
        r == layers_tensor(rest@),
{
    let ps = split(rest, '.');
    let ghost views = crate::text::parts(rest@, '.');
    assert(ps@.len() == views.len());
    assert forall|i: int| 0 <= i < views.len() implies views[i] == (#[trigger] ps@[i])@ by {
        assert(ps@.map_values(|p: &[char]| p@)[i] == ps@[i]@);
    }
    let mut at: usize = 0;
    while at < ps.len() && !same_text(ps[at], "experts")
        invariant
            at <= ps.len(),
            ps@.len() == views.len(),
            forall|i: int| 0 <= i < views.len() ==> views[i] == (#[trigger] ps@[i])@,
            forall|i: int| 0 <= i < at ==> views[i] != "experts"@,
        decreases ps.len() - at,
    {
        at = at + 1;
    }
    proof {
        lemma_first_part(views, "experts"@, at as int);
    }
    if ps.len() < 4 || at >= ps.len() - 2 {
        return None;
    }
    match (parse_decimal(ps[0]), parse_decimal(ps[at + 1]), projection(ps[at + 2])) {
        (Some(layer), Some(expert), Some(p)) => Some((layer, expert, p)),
        _ => None,
    }
}

fn parse_weight_name(name: &[char]) -> (r: Option<Projection>)
    ensures
        r == weight_named(name@),
{
    match strip_suffix(name, ".weight") {
        Some(stem) => projection(stem),
        None => projection(name),
    }
}

fn parse_expert_part(tail: &[char]) -> (r: Option<(usize, Projection)>)
    ensures
        r == expert_part(tail@),
{
    let (e, name) = match split_once(tail, '.') {
        Some(p) => p,
        None => {
            return None;
        },
    };
    match (parse_decimal(e), parse_weight_name(name)) {
        (Some(expert), Some(p)) => Some((expert, p)),
        _ => None,
    }
}

fn parse_transformer(rest: &[char]) -> (r: Option<(usize, usize, Projection)>)
    ensures
        r == transformer_tensor(rest@),
{
    let (l, tail) = match split_once(rest, '.') {
        Some(p) => p,
        None => {
            return None;
        },
    };
    let at = match find(tail, ".experts.") {
        Some(at) => at,
        None => {
            return None;
        },
    };
    proof {
        reveal_strlit(".experts.");
    }
    let n = tail.len();
    let after = slice_subrange(tail, at + 9, n);
    match (parse_decimal(l), parse_expert_part(after)) {
        (Some(layer), Some((expert, p))) => Some((layer, expert, p)),
        _ => None,
    }
}

/// Layer, expert and projection of an expert tensor, by its name.
pub fn parse_tensor_name(name: &str) -> (r: Option<(usize, usize, Projection)>)
    ensures
        r == expert_tensor(name@),
{
    let chars = chars_of(name);
    let s = chars.as_slice();
    if let Some(rest) = strip_prefix(s, "blk.") {
        return parse_block(rest);
    }
    if let Some(rest) = strip_prefix(s, "model.layers.") {
        return parse_layers(rest);
    }
    if let Some(rest) = strip_prefix(s, "transformer.h.") {
        return parse_transformer(rest);
    }
    None
}

/// Layer, expert and projection name (`gate`, `up` or `down`) of an expert
/// tensor, or `None` for any other tensor. Recognised are
///
/// - `blk.{L}.ffn_{proj}.{E}.weight`, one expert's matrix;
/// - `blk.{L}.ffn_{proj}_exps.weight`, all experts fused: expert 0;
/// - `model.layers.{L}.block_sparse_moe.experts.{E}.{proj}.weight`;
/// - `transformer.h.{L}.moe.experts.{E}.{proj}.weight`.
pub fn parse_expert_tensor(name: &str) -> (r: Option<(usize, usize, &'static str)>)
    ensures
        match expert_tensor(name@) {
            Some((layer, expert, p)) => r matches Some(t) && t.0 == layer && t.1 == expert && t.2@
                == p.spec_text(),
            None => r is None,
        },
{
    match parse_tensor_name(name) {
        Some((layer, expert, p)) => Some((layer, expert, p.text())),
        None => None,
    }
}

/// The projection a matrix name stands for.
pub fn classify_proj(name: &str) -> (r: Option<&'static str>)
    ensures
        match projection_named(name@) {
            Some(p) => r matches Some(t) && t@ == p.spec_text(),
            None => r is None,
        },
{
    match projection(chars_of(name).as_slice()) {
        Some(p) => Some(p.text()),
        None => None,
    }
}

/// Whether a name is that of a router gate.
pub fn is_router_gate(name: &str) -> (b: bool)
    ensures
        b == router_gate(name@),
{
    let chars = chars_of(name);
    let s = chars.as_slice();
    contains(s, "ffn_gate_inp") || ends_with(s, ".block_sparse_moe.gate.weight") || (contains(
        s,
        ".gate.",
    ) && !contains(s, "experts"))
}

// ── Laws ─────────────────────────────────────────────────────────────────────

/// `blk.{L}.ffn_{proj}.{E}.weight`.
pub open spec fn block_expert_name(layer: nat, p: Projection, expert: nat) -> Seq<char> {
    "blk."@ + crate::text::decimal(layer) + ".ffn_"@ + p.spec_text() + "."@
        + crate::text::decimal(expert) + ".weight"@
}

/// `blk.{L}.ffn_{proj}_exps.weight`.
pub open spec fn block_fused_name(layer: nat, p: Projection) -> Seq<char> {
    "blk."@ + crate::text::decimal(layer) + ".ffn_"@ + p.spec_text() + "_exps.weight"@
}

/// `model.layers.{L}.block_sparse_moe.experts.{E}.{matrix}.weight`.
pub open spec fn layers_expert_name(layer: nat, expert: nat, matrix: Seq<char>) -> Seq<char> {
    "model.layers."@ + crate::text::decimal(layer) + ".block_sparse_moe.experts."@
        + crate::text::decimal(expert) + "."@ + matrix + ".weight"@
}

/// `transformer.h.{L}.moe.experts.{E}.{matrix}.weight`.
pub open spec fn transformer_expert_name(layer: nat, expert: nat, matrix: Seq<char>) -> Seq<char> {
    "transformer.h."@ + crate::text::decimal(layer) + ".moe.experts."@
        + crate::text::decimal(expert) + "."@ + matrix + ".weight"@
}

proof fn lemma_prefix(pat: Seq<char>, rest: Seq<char>)
    ensures
        crate::text::after_prefix(pat + rest, pat) == Some(rest),
{
    assert((pat + rest).subrange(0, pat.len() as int) =~= pat);
    assert((pat + rest).skip(pat.len() as int) =~= rest);
}

proof fn lemma_suffix(rest: Seq<char>, pat: Seq<char>)
    ensures
        crate::text::before_suffix(rest + pat, pat) == Some(rest),
{
    let s = rest + pat;
    assert(s.subrange(s.len() - pat.len(), s.len() as int) =~= pat);
    assert(s.take(s.len() - pat.len()) =~= rest);
}

/// Digits hold no dot, so a number followed by a dot is cut right behind it.
proof fn lemma_cut_number(n: nat, rest: Seq<char>)
    ensures
        crate::text::cut(crate::text::decimal(n) + "."@ + rest, '.') == Some(
            (crate::text::decimal(n), rest),
        ),
{
    reveal_strlit(".");
    crate::text::lemma_decimal(n);
    let d = crate::text::decimal(n);
    let s = d + "."@ + rest;
    assert forall|i: int| 0 <= i < d.len() implies s[i] != '.' by {
        assert(crate::text::is_digit(d[i]));
        assert(s[i] == d[i]);
    }
    crate::text::lemma_first_index_is(s, '.', d.len() as int);
    assert(s.take(d.len() as int) =~= d);
    assert(s.skip(d.len() as int + 1) =~= rest);
}

/// Every per-expert block tensor is recognised.
pub proof fn law_block_expert(layer: usize, p: Projection, expert: usize)
    ensures
        expert_tensor(block_expert_name(layer as nat, p, expert as nat)) == Some(
            (layer, expert, p),
        ),
{
    let l = crate::text::decimal(layer as nat);
    let e = crate::text::decimal(expert as nat);
    reveal_strlit("blk.");
    reveal_strlit(".ffn_");
    reveal_strlit("ffn_gate.");
    reveal_strlit("ffn_up.");
    reveal_strlit("ffn_down.");
    reveal_strlit("gate");
    reveal_strlit("up");
    reveal_strlit("down");
    reveal_strlit(".");
    reveal_strlit(".weight");
    let head = match p {
        Projection::Gate => "ffn_gate."@,
        Projection::Up => "ffn_up."@,
        Projection::Down => "ffn_down."@,
    };
    let tail = head + (e + ".weight"@);
    let name = block_expert_name(layer as nat, p, expert as nat);
    assert(name =~= "blk."@ + (l + "."@ + tail));
    lemma_prefix("blk."@, l + "."@ + tail);
    lemma_cut_number(layer as nat, tail);
    lemma_prefix(head, e + ".weight"@);
    assert(tail[4] == head[4]);
    assert(p is Up ==> tail.subrange(0, 9)[4] != "ffn_gate."@[4]);
    assert(p is Down ==> tail.subrange(0, 9)[4] != "ffn_gate."@[4]);
    assert(p is Down ==> tail.subrange(0, 7)[4] != "ffn_up."@[4]);
    lemma_suffix(e, ".weight"@);
    crate::text::lemma_decimal(layer as nat);
    crate::text::lemma_decimal(expert as nat);
}

/// Every fused block tensor is recognised, as expert 0.
pub proof fn law_block_fused(layer: usize, p: Projection)
    ensures
        expert_tensor(block_fused_name(layer as nat, p)) == Some((layer, 0usize, p)),
{
    let l = crate::text::decimal(layer as nat);
    reveal_strlit("blk.");
    reveal_strlit(".ffn_");
    reveal_strlit("ffn_gate.");
    reveal_strlit("ffn_up.");
    reveal_strlit("ffn_down.");
    reveal_strlit("_exps.weight");
    reveal_strlit("ffn_gate_exps.weight");
    reveal_strlit("ffn_up_exps.weight");
    reveal_strlit("ffn_down_exps.weight");
    reveal_strlit("gate");
    reveal_strlit("up");
    reveal_strlit("down");
    reveal_strlit(".");
    let tail = match p {
        Projection::Gate => "ffn_gate_exps.weight"@,
        Projection::Up => "ffn_up_exps.weight"@,
        Projection::Down => "ffn_down_exps.weight"@,
    };
    let name = block_fused_name(layer as nat, p);
    assert(name =~= "blk."@ + (l + "."@ + tail));
    lemma_prefix("blk."@, l + "."@ + tail);
    lemma_cut_number(layer as nat, tail);
    crate::text::lemma_decimal(layer as nat);
    assert(tail.subrange(0, 9)[8] != "ffn_gate."@[8] || tail.subrange(0, 9)[4] != "ffn_gate."@[4]);
    assert(tail.subrange(0, 7)[6] != "ffn_up."@[6] || tail.subrange(0, 7)[4] != "ffn_up."@[4]);
    assert(tail.subrange(0, 9)[8] != "ffn_down."@[8] || tail.subrange(0, 9)[4] != "ffn_down."@[4]);
    assert(p is Up ==> tail != "ffn_gate_exps.weight"@);
    assert(p is Down ==> tail[4] != "ffn_gate_exps.weight"@[4]);
    assert(p is Down ==> tail.len() != "ffn_up_exps.weight"@.len());
}

/// A part without a dot is split off whole.
proof fn lemma_parts(head: Seq<char>, rest: Seq<char>)
    requires
        forall|i: int| 0 <= i < head.len() ==> head[i] != '.',
    ensures
        crate::text::parts(head + "."@ + rest, '.') == seq![head] + crate::text::parts(rest, '.'),
        crate::text::parts(head, '.') == seq![head],
{
    reveal_strlit(".");
    let s = head + "."@ + rest;
    assert forall|i: int| 0 <= i < head.len() implies s[i] != '.' by {
        assert(s[i] == head[i]);
    }
    crate::text::lemma_first_index_is(s, '.', head.len() as int);
    crate::text::lemma_first_index_is(head, '.', head.len() as int);
    assert(s.take(head.len() as int) =~= head);
    assert(s.skip(head.len() as int + 1) =~= rest);
}

/// What stands before the first dot is the first part, whatever follows.
proof fn lemma_first_of(s: Seq<char>, rest: Seq<char>)
    ensures
        crate::text::parts(s + "."@ + rest, '.').len() > 0,
        crate::text::parts(s, '.').len() > 0,
        crate::text::parts(s + "."@ + rest, '.')[0] == crate::text::parts(s, '.')[0],
{
    reveal_strlit(".");
    let long = s + "."@ + rest;
    if exists|i: int| 0 <= i < s.len() && s[i] == '.' {
        let at = lemma_first_dot(s, s.len() as int);
        assert forall|i: int| 0 <= i < at implies long[i] != '.' by {
            assert(long[i] == s[i]);
        }
        assert(long[at] == s[at]);
        crate::text::lemma_first_index_is(s, '.', at);
        crate::text::lemma_first_index_is(long, '.', at);
        assert(long.take(at) =~= s.take(at));
    } else {
        lemma_parts(s, rest);
    }
}

/// The position of the first dot among the first `n` characters.
proof fn lemma_first_dot(s: Seq<char>, n: int) -> (at: int)
    requires
        0 <= n <= s.len(),
        exists|i: int| 0 <= i < n && s[i] == '.',
    ensures
        0 <= at < n,
        s[at] == '.',
        forall|i: int| 0 <= i < at ==> s[i] != '.',
    decreases n,
{
    if exists|i: int| 0 <= i < n - 1 && s[i] == '.' {
        lemma_first_dot(s, n - 1)
    } else {
        n - 1
    }
}

/// Every `model.layers` expert tensor is recognised exactly when its matrix,
/// up to the first dot, has a known name.
pub proof fn law_layers_expert(layer: usize, expert: usize, matrix: Seq<char>)
    ensures
        expert_tensor(layers_expert_name(layer as nat, expert as nat, matrix))
            == match projection_named(crate::text::parts(matrix, '.')[0]) {
            Some(p) => Some((layer, expert, p)),
            None => None,
        },
        (forall|i: int| 0 <= i < matrix.len() ==> matrix[i] != '.') ==> crate::text::parts(
            matrix,
            '.',
        )[0] == matrix,
{
    let l = crate::text::decimal(layer as nat);
    let e = crate::text::decimal(expert as nat);
    reveal_strlit("blk.");
    reveal_strlit("model.layers.");
    reveal_strlit(".block_sparse_moe.experts.");
    reveal_strlit("block_sparse_moe");
    reveal_strlit("experts");
    reveal_strlit("weight");
    reveal_strlit(".weight");
    reveal_strlit(".");
    crate::text::lemma_decimal(layer as nat);
    crate::text::lemma_decimal(expert as nat);
    let s4 = "weight"@;
    let s3 = matrix + "."@ + s4;
    let s2 = e + "."@ + s3;
    let s1 = "experts"@ + "."@ + s2;
    let s0 = "block_sparse_moe"@ + "."@ + s1;
    let rest = l + "."@ + s0;
    let name = layers_expert_name(layer as nat, expert as nat, matrix);
    assert(name =~= "model.layers."@ + rest);
    lemma_prefix("model.layers."@, rest);
    assert(name.subrange(0, 4)[0] != "blk."@[0]);
    assert forall|i: int| 0 <= i < l.len() implies l[i] != '.' by {
        assert(crate::text::is_digit(l[i]));
    }
    assert forall|i: int| 0 <= i < e.len() implies e[i] != '.' by {
        assert(crate::text::is_digit(e[i]));
    }
    lemma_parts(l, s0);
    lemma_parts("block_sparse_moe"@, s1);
    lemma_parts("experts"@, s2);
    lemma_parts(e, s3);
    lemma_first_of(matrix, s4);
    if forall|i: int| 0 <= i < matrix.len() ==> matrix[i] != '.' {
        lemma_parts(matrix, s4);
    }
    let ps = crate::text::parts(rest, '.');
    assert(ps =~= seq![l, "block_sparse_moe"@, "experts"@, e] + crate::text::parts(s3, '.'));
    assert(crate::text::is_digit(l[0]));
    assert("experts"@[0] != l[0]);
    assert("block_sparse_moe"@.len() != "experts"@.len());
    lemma_first_part(ps, "experts"@, 2);
}

/// In `moe.experts.…` the marker `.experts.` is found behind `moe`.
proof fn lemma_marker(after: Seq<char>)
    ensures
        crate::text::first_occurrence(seq!['m', 'o', 'e'] + ".experts."@ + after, ".experts."@, 0)
            == Some(3int),
        (seq!['m', 'o', 'e'] + ".experts."@ + after).skip(3int + ".experts."@.len()) == after,
{
    reveal_strlit(".experts.");
    let pat = ".experts."@;
    let tail = seq!['m', 'o', 'e'] + pat + after;
    assert(tail.subrange(3, 12) =~= pat);
    assert forall|i: int| 0 <= i < 3 implies !crate::text::occurs_at(tail, pat, i) by {
        assert(tail.subrange(i, i + 9)[0] == tail[i]);
        assert(pat[0] == '.');
    }
    assert(crate::text::occurs_at(tail, pat, 3));
    crate::text::lemma_first_occurrence(tail, pat, 0);
    assert(tail.skip(12) =~= after);
}

/// Every `transformer.h` expert tensor is recognised exactly when its matrix
/// has a known name.
pub proof fn law_transformer_expert(layer: usize, expert: usize, matrix: Seq<char>)
    ensures
        expert_tensor(transformer_expert_name(layer as nat, expert as nat, matrix))
            == match projection_named(matrix) {
            Some(p) => Some((layer, expert, p)),
            None => None,
        },
{
    let l = crate::text::decimal(layer as nat);
    let e = crate::text::decimal(expert as nat);
    let after = e + "."@ + (matrix + ".weight"@);
    let tail = seq!['m', 'o', 'e'] + ".experts."@ + after;
    let rest = l + "."@ + tail;
    let name = transformer_expert_name(layer as nat, expert as nat, matrix);
    assert(name == "transformer.h."@ + rest && crate::text::after_prefix(name, "blk."@) is None
        && crate::text::after_prefix(name, "model.layers."@) is None) by {
        reveal_strlit("blk.");
        reveal_strlit("model.layers.");
        reveal_strlit("transformer.h.");
        reveal_strlit(".moe.experts.");
        reveal_strlit(".experts.");
        reveal_strlit(".");
        assert(name =~= "transformer.h."@ + rest);
        assert(name.subrange(0, 4)[0] != "blk."@[0]);
        assert(name.subrange(0, 13)[0] != "model.layers."@[0]);
    }
    lemma_prefix("transformer.h."@, rest);
    lemma_cut_number(layer as nat, tail);
    lemma_marker(after);
    assert(expert_part(after) == match projection_named(matrix) {
        Some(p) => Some((expert, p)),
        None => None,
    }) by {
        lemma_cut_number(expert as nat, matrix + ".weight"@);
        lemma_suffix(matrix, ".weight"@);
        crate::text::lemma_decimal(expert as nat);
    }
    crate::text::lemma_decimal(layer as nat);
}

/// The names of the three matrices, and what each is called in a result.
pub proof fn law_projection_named(name: Seq<char>)
    ensures
        projection_named(name) == Some(Projection::Gate) <==> name == "w1"@ || name
            == "gate_proj"@,
        projection_named(name) == Some(Projection::Up) <==> name == "w3"@ || name == "up_proj"@,
        projection_named(name) == Some(Projection::Down) <==> name == "w2"@ || name
            == "down_proj"@,
        Projection::Gate.spec_text() == "gate"@,
        Projection::Up.spec_text() == "up"@,
        Projection::Down.spec_text() == "down"@,
{
    reveal_strlit("w1");
    reveal_strlit("w2");
    reveal_strlit("w3");
    reveal_strlit("gate_proj");
    reveal_strlit("up_proj");
    reveal_strlit("down_proj");
    assert("w1"@[1] != "w3"@[1] && "w1"@[1] != "w2"@[1] && "w2"@[1] != "w3"@[1]);
    assert("gate_proj"@[0] != "down_proj"@[0]);
}

/// The text of a number holds no dot.
proof fn lemma_no_dot(digits: Seq<char>)
    requires
        crate::text::decimal_value(digits) is Some,
    ensures
        !digits.contains('.'),
{
    crate::text::law_decimal_text(digits);
    if digits.contains('.') {
        let i = choose|i: int| 0 <= i < digits.len() && digits[i] == '.';
        assert(i == 0 || 48 <= digits[i] as int);
    }
}

/// The three prefixes begin differently.
proof fn lemma_prefixes(rest: Seq<char>)
    ensures
        expert_tensor("blk."@ + rest) == block_tensor(rest),
        expert_tensor("model.layers."@ + rest) == layers_tensor(rest),
        expert_tensor("transformer.h."@ + rest) == transformer_tensor(rest),
{
    reveal_strlit("blk.");
    reveal_strlit("model.layers.");
    reveal_strlit("transformer.h.");
    lemma_prefix("blk."@, rest);
    let m = "model.layers."@ + rest;
    lemma_prefix("model.layers."@, rest);
    assert(m.subrange(0, 4)[0] == 'm');
    let t = "transformer.h."@ + rest;
    lemma_prefix("transformer.h."@, rest);
    assert(t.subrange(0, 4)[0] == 't');
    assert(t.subrange(0, 13)[0] == 't');
}

/// Only names that begin with `blk.`, `model.layers.` or `transformer.h.` are
/// those of expert tensors.
pub proof fn law_expert_prefixes(name: Seq<char>) -> (rest: Seq<char>)
    requires
        expert_tensor(name) is Some,
    ensures
        name == "blk."@ + rest || name == "model.layers."@ + rest || name == "transformer.h."@
            + rest,
{
    if let Some(rest) = crate::text::after_prefix(name, "blk."@) {
        crate::text::law_prefix(name, "blk."@, rest);
        rest
    } else if let Some(rest) = crate::text::after_prefix(name, "model.layers."@) {
        crate::text::law_prefix(name, "model.layers."@, rest);
        rest
    } else {
        let rest = crate::text::after_prefix(name, "transformer.h."@)->0;
        crate::text::law_prefix(name, "transformer.h."@, rest);
        rest
    }
}

/// A block tensor that is recognised has one of the two block forms: `l` is a
/// text of the layer, and for a single expert `e` is a text of the expert.
pub proof fn law_block_form(
    rest: Seq<char>,
    layer: usize,
    expert: usize,
    p: Projection,
) -> (texts: (Seq<char>, Seq<char>))
    requires
        expert_tensor("blk."@ + rest) == Some((layer, expert, p)),
    ensures
        ({
            let (l, e) = texts;
            let word = match p {
                Projection::Gate => "gate"@,
                Projection::Up => "up"@,
                Projection::Down => "down"@,
            };
            &&& crate::text::decimal_value(l) == Some(layer)
            &&& {
                ||| rest == l + ".ffn_"@ + word + "."@ + e + ".weight"@
                    && crate::text::decimal_value(e) == Some(expert)
                ||| rest == l + ".ffn_"@ + word + "_exps.weight"@ && expert == 0
            }
        }),
{
    lemma_prefixes(rest);
    let (l, tail) = crate::text::cut(rest, '.')->0;
    crate::text::law_cut(rest, '.', l, tail);
    let e = lemma_block_part_form(tail, expert, p);
    lemma_block_words();
    match p {
        Projection::Gate => {
            lemma_one_joined(l, "gate"@, "ffn_gate."@, e);
            lemma_all_joined(l, "gate"@, "ffn_gate_exps.weight"@);
        },
        Projection::Up => {
            lemma_one_joined(l, "up"@, "ffn_up."@, e);
            lemma_all_joined(l, "up"@, "ffn_up_exps.weight"@);
        },
        Projection::Down => {
            lemma_one_joined(l, "down"@, "ffn_down."@, e);
            lemma_all_joined(l, "down"@, "ffn_down_exps.weight"@);
        },
    }
    (l, e)
}

/// What follows the layer, where it is recognised.
proof fn lemma_block_part_form(tail: Seq<char>, expert: usize, p: Projection) -> (e: Seq<char>)
    requires
        block_part(tail) == Some((expert, p)),
    ensures
        ({
            let (head, fused) = match p {
                Projection::Gate => ("ffn_gate."@, "ffn_gate_exps.weight"@),
                Projection::Up => ("ffn_up."@, "ffn_up_exps.weight"@),
                Projection::Down => ("ffn_down."@, "ffn_down_exps.weight"@),
            };
            ||| tail == head + (e + ".weight"@) && crate::text::decimal_value(e) == Some(expert)
            ||| tail == fused && expert == 0
        }),
{
    let head = match p {
        Projection::Gate => "ffn_gate."@,
        Projection::Up => "ffn_up."@,
        Projection::Down => "ffn_down."@,
    };
    if crate::text::after_prefix(tail, "ffn_gate."@) is Some || crate::text::after_prefix(
        tail,
        "ffn_up."@,
    ) is Some || crate::text::after_prefix(tail, "ffn_down."@) is Some {
        let t = crate::text::after_prefix(tail, head)->0;
        crate::text::law_prefix(tail, head, t);
        let e = crate::text::before_suffix(t, ".weight"@)->0;
        crate::text::law_suffix(t, ".weight"@, e);
        e
    } else {
        Seq::empty()
    }
}

proof fn lemma_one_joined(l: Seq<char>, word: Seq<char>, head: Seq<char>, e: Seq<char>)
    requires
        seq!['.'] + head == ".ffn_"@ + word + "."@,
    ensures
        l + seq!['.'] + (head + (e + ".weight"@)) == l + ".ffn_"@ + word + "."@ + e + ".weight"@,
        "blk."@ + (l + seq!['.'] + (head + (e + ".weight"@))) == "blk."@ + l + ".ffn_"@ + word
            + "."@ + e + ".weight"@,
{
    let (ffn, dot, end, blk) = (".ffn_"@, "."@, ".weight"@, "blk."@);
    assert(l + seq!['.'] + (head + (e + end)) =~= l + (seq!['.'] + head) + e + end);
    assert(l + (ffn + word + dot) + e + end =~= l + ffn + word + dot + e + end);
    assert(blk + (l + ffn + word + dot + e + end) =~= blk + l + ffn + word + dot + e + end);
}

proof fn lemma_all_joined(l: Seq<char>, word: Seq<char>, fused: Seq<char>)
    requires
        seq!['.'] + fused == ".ffn_"@ + word + "_exps.weight"@,
    ensures
        l + seq!['.'] + fused == l + ".ffn_"@ + word + "_exps.weight"@,
        "blk."@ + (l + seq!['.'] + fused) == "blk."@ + l + ".ffn_"@ + word + "_exps.weight"@,
{
    let (ffn, end, blk) = (".ffn_"@, "_exps.weight"@, "blk."@);
    assert(l + seq!['.'] + fused =~= l + (seq!['.'] + fused));
    assert(l + (ffn + word + end) =~= l + ffn + word + end);
    assert(blk + (l + ffn + word + end) =~= blk + l + ffn + word + end);
}

/// How the block forms are put together.
proof fn lemma_block_words()
    ensures
        seq!['.'] + "ffn_gate."@ == ".ffn_"@ + "gate"@ + "."@,
        seq!['.'] + "ffn_up."@ == ".ffn_"@ + "up"@ + "."@,
        seq!['.'] + "ffn_down."@ == ".ffn_"@ + "down"@ + "."@,
        seq!['.'] + "ffn_gate_exps.weight"@ == ".ffn_"@ + "gate"@ + "_exps.weight"@,
        seq!['.'] + "ffn_up_exps.weight"@ == ".ffn_"@ + "up"@ + "_exps.weight"@,
        seq!['.'] + "ffn_down_exps.weight"@ == ".ffn_"@ + "down"@ + "_exps.weight"@,
{
    reveal_strlit(".ffn_");
    reveal_strlit("gate");
    reveal_strlit("up");
    reveal_strlit("down");
    reveal_strlit(".");
    reveal_strlit("_exps.weight");
    reveal_strlit("ffn_gate.");
    reveal_strlit("ffn_up.");
    reveal_strlit("ffn_down.");
    reveal_strlit("ffn_gate_exps.weight");
    reveal_strlit("ffn_up_exps.weight");
    reveal_strlit("ffn_down_exps.weight");
    assert(seq!['.'] + "ffn_gate."@ =~= ".ffn_"@ + "gate"@ + "."@);
    assert(seq!['.'] + "ffn_up."@ =~= ".ffn_"@ + "up"@ + "."@);
    assert(seq!['.'] + "ffn_down."@ =~= ".ffn_"@ + "down"@ + "."@);
    assert(seq!['.'] + "ffn_gate_exps.weight"@ =~= ".ffn_"@ + "gate"@ + "_exps.weight"@);
    assert(seq!['.'] + "ffn_up_exps.weight"@ =~= ".ffn_"@ + "up"@ + "_exps.weight"@);
    assert(seq!['.'] + "ffn_down_exps.weight"@ =~= ".ffn_"@ + "down"@ + "_exps.weight"@);
}

/// Every name of the two block forms is recognised, whatever texts of the layer
/// and the expert stand in it.
pub proof fn law_block_recognised(l: Seq<char>, p: Projection, e: Seq<char>)
    requires
        crate::text::decimal_value(l) is Some,
    ensures
        ({
            let word = match p {
                Projection::Gate => "gate"@,
                Projection::Up => "up"@,
                Projection::Down => "down"@,
            };
            &&& crate::text::decimal_value(e) is Some ==> expert_tensor(
                "blk."@ + l + ".ffn_"@ + word + "."@ + e + ".weight"@,
            ) == Some((crate::text::decimal_value(l)->0, crate::text::decimal_value(e)->0, p))
            &&& expert_tensor("blk."@ + l + ".ffn_"@ + word + "_exps.weight"@) == Some(
                (crate::text::decimal_value(l)->0, 0usize, p),
            )
        }),
{
    let (word, head, fused) = match p {
        Projection::Gate => ("gate"@, "ffn_gate."@, "ffn_gate_exps.weight"@),
        Projection::Up => ("up"@, "ffn_up."@, "ffn_up_exps.weight"@),
        Projection::Down => ("down"@, "ffn_down."@, "ffn_down_exps.weight"@),
    };
    lemma_no_dot(l);
    lemma_block_words();
    let tail = head + (e + ".weight"@);
    lemma_one_joined(l, word, head, e);
    lemma_all_joined(l, word, fused);
    let one = l + seq!['.'] + tail;
    let all = l + seq!['.'] + fused;
    lemma_prefixes(one);
    lemma_prefixes(all);
    crate::text::law_cut(one, '.', l, tail);
    crate::text::law_cut(all, '.', l, fused);
    lemma_suffix(e, ".weight"@);
    lemma_one_part(p, e);
    lemma_all_part(p);
}

proof fn lemma_one_part(p: Projection, e: Seq<char>)
    ensures
        ({
            let head = match p {
                Projection::Gate => "ffn_gate."@,
                Projection::Up => "ffn_up."@,
                Projection::Down => "ffn_down."@,
            };
            block_part(head + (e + ".weight"@)) == numbered(e + ".weight"@, p)
        }),
{
    let head = match p {
        Projection::Gate => "ffn_gate."@,
        Projection::Up => "ffn_up."@,
        Projection::Down => "ffn_down."@,
    };
    let tail = head + (e + ".weight"@);
    lemma_prefix(head, e + ".weight"@);
    reveal_strlit("ffn_gate.");
    reveal_strlit("ffn_up.");
    reveal_strlit("ffn_down.");
    reveal_strlit(".weight");
    assert(tail[4] == head[4]);
    assert(p is Up ==> tail.subrange(0, 9)[4] != "ffn_gate."@[4]);
    assert(p is Down ==> tail.subrange(0, 9)[4] != "ffn_gate."@[4]);
    assert(p is Down ==> tail.subrange(0, 7)[4] != "ffn_up."@[4]);
}

proof fn lemma_all_part(p: Projection)
    ensures
        ({
            let fused = match p {
                Projection::Gate => "ffn_gate_exps.weight"@,
                Projection::Up => "ffn_up_exps.weight"@,
                Projection::Down => "ffn_down_exps.weight"@,
            };
            block_part(fused) == Some((0usize, p))
        }),
{
    let fused = match p {
        Projection::Gate => "ffn_gate_exps.weight"@,
        Projection::Up => "ffn_up_exps.weight"@,
        Projection::Down => "ffn_down_exps.weight"@,
    };
    reveal_strlit("ffn_gate.");
    reveal_strlit("ffn_up.");
    reveal_strlit("ffn_down.");
    reveal_strlit("ffn_gate_exps.weight");
    reveal_strlit("ffn_up_exps.weight");
    reveal_strlit("ffn_down_exps.weight");
    assert(fused.subrange(0, 9)[8] != "ffn_gate."@[8] || fused.subrange(0, 9)[4]
        != "ffn_gate."@[4]);
    assert(fused.subrange(0, 7)[6] != "ffn_up."@[6] || fused.subrange(0, 7)[4] != "ffn_up."@[4]);
    assert(fused.subrange(0, 9)[8] != "ffn_down."@[8] || fused.subrange(0, 9)[4]
        != "ffn_down."@[4]);
    assert(p is Up ==> fused.len() != "ffn_gate_exps.weight"@.len());
    assert(p is Down ==> fused[4] != "ffn_gate_exps.weight"@[4]);
    assert(p is Down ==> fused.len() != "ffn_up_exps.weight"@.len());
}

/// A `model.layers` name is that of an expert tensor exactly where what follows
/// has at least four parts between its dots, the first one a text of the layer,
/// and the first part `experts` stands before a text of the expert and the name
/// of a matrix.
pub proof fn law_layers_form(
    rest: Seq<char>,
    at: int,
    layer: usize,
    expert: usize,
    p: Projection,
)
    requires
        0 <= at < crate::text::parts(rest, '.').len(),
        crate::text::parts(rest, '.')[at] == "experts"@,
        forall|i: int| 0 <= i < at ==> crate::text::parts(rest, '.')[i] != "experts"@,
    ensures
        ({
            let ps = crate::text::parts(rest, '.');
            expert_tensor("model.layers."@ + rest) == Some((layer, expert, p)) <==> {
                &&& ps.len() >= 4
                &&& at + 2 < ps.len()
                &&& crate::text::decimal_value(ps[0]) == Some(layer)
                &&& crate::text::decimal_value(ps[at + 1]) == Some(expert)
                &&& projection_named(ps[at + 2]) == Some(p)
            }
        }),
{
    lemma_prefixes(rest);
    lemma_first_part(crate::text::parts(rest, '.'), "experts"@, at);
}

/// A `model.layers` name without a part `experts` is not that of an expert
/// tensor.
pub proof fn law_layers_without_experts(rest: Seq<char>)
    requires
        !crate::text::parts(rest, '.').contains("experts"@),
    ensures
        expert_tensor("model.layers."@ + rest) is None,
{
    let ps = crate::text::parts(rest, '.');
    lemma_prefixes(rest);
    assert forall|i: int| 0 <= i < ps.len() implies ps[i] != "experts"@ by {
        assert(ps.contains(ps[i]));
    }
    lemma_first_part(ps, "experts"@, ps.len() as int);
}

/// A matrix name is not changed by taking `.weight` off its end.
proof fn lemma_plain_matrix(m: Seq<char>)
    requires
        projection_named(m) is Some,
    ensures
        weight_named(m) == projection_named(m),
        weight_named(m + ".weight"@) == projection_named(m),
{
    lemma_suffix(m, ".weight"@);
    if crate::text::before_suffix(m, ".weight"@) is Some {
        reveal_strlit(".weight");
        reveal_strlit("w1");
        reveal_strlit("w2");
        reveal_strlit("w3");
        reveal_strlit("gate_proj");
        reveal_strlit("up_proj");
        reveal_strlit("down_proj");
        let at = m.len() - 7;
        assert(m.subrange(at, m.len() as int)[6] == m[m.len() - 1]);
        assert(".weight"@[6] == 't');
    }
}

/// Every `transformer.h` name whose first `.experts.` stands between a text of
/// the layer and a text of the expert is recognised by its matrix, with or
/// without `.weight` at its end.
pub proof fn law_transformer_recognised(
    l: Seq<char>,
    a: Seq<char>,
    e: Seq<char>,
    m: Seq<char>,
    end: Seq<char>,
)
    requires
        crate::text::decimal_value(l) is Some,
        crate::text::decimal_value(e) is Some,
        projection_named(m) is Some,
        end == ".weight"@ || end == Seq::<char>::empty(),
        forall|i: int|
            0 <= i < a.len() ==> #[trigger] (a + ".experts."@ + e + "."@ + m + end).subrange(
                i,
                i + 9,
            ) != ".experts."@,
    ensures
        expert_tensor("transformer.h."@ + l + "."@ + a + ".experts."@ + e + "."@ + m + end) == Some(
            (
                crate::text::decimal_value(l)->0,
                crate::text::decimal_value(e)->0,
                projection_named(m)->0,
            ),
        ),
{
    let (pat, dot, head) = (".experts."@, "."@, "transformer.h."@);
    let tail = a + pat + e + dot + m + end;
    let after = e + seq!['.'] + (m + end);
    let rest = l + seq!['.'] + tail;
    assert(dot == seq!['.'] && pat.len() == 9) by {
        reveal_strlit(".experts.");
        reveal_strlit(".");
        assert("."@ =~= seq!['.']);
    }
    assert(head + l + dot + a + pat + e + dot + m + end == head + rest && tail == a + pat
        + after) by {
        lemma_transformer_named(head, l, a, pat, e, m, end, dot);
    }
    lemma_prefixes(rest);
    lemma_no_dot(l);
    lemma_no_dot(e);
    crate::text::law_cut(rest, '.', l, tail);
    let n = a.len() as int;
    assert(crate::text::first_occurrence(tail, pat, 0) == Some(n)) by {
        assert(tail.subrange(n, n + 9) =~= pat);
        assert(crate::text::occurs_at(tail, pat, n));
        crate::text::lemma_first_occurrence(tail, pat, 0);
        let at = crate::text::first_occurrence(tail, pat, 0)->0;
        if at < n {
            assert(crate::text::occurs_at(tail, pat, at));
            assert(tail.subrange(at, at + 9) == pat);
        }
    }
    assert(tail.skip(n + 9) =~= after);
    crate::text::law_cut(after, '.', e, m + end);
    lemma_plain_matrix(m);
    assert(m + Seq::<char>::empty() =~= m);
}

proof fn lemma_transformer_named(
    head: Seq<char>,
    l: Seq<char>,
    a: Seq<char>,
    pat: Seq<char>,
    e: Seq<char>,
    m: Seq<char>,
    end: Seq<char>,
    dot: Seq<char>,
)
    requires
        dot == seq!['.'],
    ensures
        head + l + dot + a + pat + e + dot + m + end == head + (l + seq!['.'] + (a + pat + e + dot
            + m + end)),
        a + pat + e + dot + m + end == a + pat + (e + seq!['.'] + (m + end)),
{
    assert(head + l + dot + a + pat + e + dot + m + end =~= head + (l + seq!['.'] + (a + pat + e
        + dot + m + end)));
    assert(a + pat + e + dot + m + end =~= a + pat + (e + seq!['.'] + (m + end)));
}

/// A `transformer.h` name that is recognised has that form: `texts` are a text
/// of the layer, what stands between it and the first `.experts.`, a text of
/// the expert, and the name of the matrix.
pub proof fn law_transformer_form(
    rest: Seq<char>,
    layer: usize,
    expert: usize,
    p: Projection,
) -> (texts: (Seq<char>, Seq<char>, Seq<char>, Seq<char>))
    requires
        expert_tensor("transformer.h."@ + rest) == Some((layer, expert, p)),
    ensures
        ({
            let (l, a, e, m) = texts;
            &&& crate::text::decimal_value(l) == Some(layer)
            &&& crate::text::decimal_value(e) == Some(expert)
            &&& projection_named(m) == Some(p)
            &&& rest == l + "."@ + a + ".experts."@ + e + "."@ + m || rest == l + "."@ + a
                + ".experts."@ + e + "."@ + m + ".weight"@
            &&& forall|i: int|
                0 <= i < a.len() ==> #[trigger] rest.skip(l.len() as int + 1).subrange(i, i + 9)
                    != ".experts."@
        }),
{
    lemma_prefixes(rest);
    reveal_strlit(".experts.");
    reveal_strlit(".");
    assert("."@ =~= seq!['.']);
    let pat = ".experts."@;
    let (l, tail) = crate::text::cut(rest, '.')->0;
    crate::text::law_cut(rest, '.', l, tail);
    let at = crate::text::first_occurrence(tail, pat, 0)->0;
    crate::text::lemma_first_occurrence(tail, pat, 0);
    crate::text::law_find(tail, pat, at);
    let a = tail.take(at);
    let after = tail.skip(at + pat.len());
    let (e, name) = crate::text::cut(after, '.')->0;
    crate::text::law_cut(after, '.', e, name);
    let m = match crate::text::before_suffix(name, ".weight"@) {
        Some(stem) => stem,
        None => name,
    };
    assert(tail == a + pat + after);
    lemma_transformer_joined(l, a, pat, e, name, "."@);
    if crate::text::before_suffix(name, ".weight"@) is Some {
        crate::text::law_suffix(name, ".weight"@, m);
        assert(l + "."@ + a + pat + e + "."@ + (m + ".weight"@) =~= l + "."@ + a + pat + e + "."@
            + m + ".weight"@);
    }
    assert(rest.skip(l.len() as int + 1) =~= tail);
    (l, a, e, m)
}

proof fn lemma_transformer_joined(
    l: Seq<char>,
    a: Seq<char>,
    pat: Seq<char>,
    e: Seq<char>,
    name: Seq<char>,
    dot: Seq<char>,
)
    requires
        dot == seq!['.'],
    ensures
        l + seq!['.'] + (a + pat + (e + seq!['.'] + name)) == l + dot + a + pat + e + dot + name,
{
    assert(l + seq!['.'] + (a + pat + (e + seq!['.'] + name)) =~= l + dot + a + pat + e + dot
        + name);
}

/// Every name that holds `ffn_gate_inp`, every name that ends in
/// `.block_sparse_moe.gate.weight`, and every name that holds `.gate.` but not
/// `experts` is that of a router gate.
pub proof fn law_router_gate(a: Seq<char>, b: Seq<char>)
    ensures
        router_gate(a + "ffn_gate_inp"@ + b),
        router_gate(a + ".block_sparse_moe.gate.weight"@),
        router_gate(a + ".gate."@ + b) || exists|c: Seq<char>, d: Seq<char>|
            a + ".gate."@ + b == #[trigger] (c + "experts"@ + d),
{
    crate::text::law_occurs(a + "ffn_gate_inp"@ + b, "ffn_gate_inp"@);
    crate::text::law_suffix(
        a + ".block_sparse_moe.gate.weight"@,
        ".block_sparse_moe.gate.weight"@,
        a,
    );
    crate::text::law_occurs(a + ".gate."@ + b, ".gate."@);
    crate::text::law_occurs(a + ".gate."@ + b, "experts"@);
}

/// No other name is that of a router gate: `sides` is what stands before and
/// behind the word by which it is one.
pub proof fn law_router_gate_form(name: Seq<char>) -> (sides: (Seq<char>, Seq<char>))
    requires
        router_gate(name),
    ensures
        ({
            let (a, b) = sides;
            ||| name == a + "ffn_gate_inp"@ + b
            ||| name == a + ".block_sparse_moe.gate.weight"@
            ||| name == a + ".gate."@ + b && forall|c: Seq<char>, d: Seq<char>|
                name != #[trigger] (c + "experts"@ + d)
        }),
{
    crate::text::law_occurs(name, "ffn_gate_inp"@);
    crate::text::law_occurs(name, ".gate."@);
    crate::text::law_occurs(name, "experts"@);
    crate::text::law_suffix(name, ".block_sparse_moe.gate.weight"@, Seq::empty());
    if crate::text::occurs(name, "ffn_gate_inp"@) {
        choose|a: Seq<char>, b: Seq<char>| name == #[trigger] (a + "ffn_gate_inp"@ + b)
    } else if crate::text::ends(name, ".block_sparse_moe.gate.weight"@) {
        let a = choose|a: Seq<char>| name == #[trigger] (a + ".block_sparse_moe.gate.weight"@);
        (a, Seq::empty())
    } else {
        choose|a: Seq<char>, b: Seq<char>| name == #[trigger] (a + ".gate."@ + b)
    }
}

} // verus!
