//! Hover information for Makefiles.

use vstd::prelude::*;
use vstd::string::StringSliceAdditionalSpecFns;
use vstd::utf8::*;

use crate::builtins::{
    find_automatic_variable, find_builtin_function, find_builtin_variable, find_special_target, first_function_named, lookup_doc,
    spec_automatic_doc, spec_builtin_functions, spec_builtin_variable_docs, spec_special_targets, strs_view, BuiltinFunction,
};
use crate::completion::{first_word, first_word_range, trim, trimmed};
use crate::goto::spec_is_in_prerequisites;
use crate::makefile::{
    lossless_is_in_prerequisites, lossless_variable_at_offset, lossless_variable_name_at, lossless_word_at_offset,
    Makefile, MakefileView, RuleView, VariableDefinitionView,
};
use crate::position::{spec_position_to_offset, try_position_to_offset, Position};
use crate::rename::{text_at, word_at};
use crate::strs::{contains_string, push_str, str_eq, strings_view};

verus! {

broadcast use vstd::utf8::encode_utf8_decode_utf8;

/// Hover contents, as Markdown.
pub struct Hover {
    pub contents: String,
}

/// `parts` joined with `sep` between them.
pub open spec fn join(parts: Seq<Seq<char>>, sep: Seq<char>) -> Seq<char>
    decreases parts.len(),
{
    if parts.len() == 0 {
        seq![]
    } else if parts.len() == 1 {
        parts[0]
    } else {
        join(parts.drop_last(), sep) + sep + parts.last()
    }
}

/// `parts` joined with `sep`.
pub fn join_strs(parts: &Vec<&'static str>, sep: &str) -> (r: String)
    ensures
        r@ == join(strs_view(parts@), sep@),
{
    let ghost ps = strs_view(parts@);
    let mut out = String::new();
    let mut i: usize = 0;
    while i < parts.len()
        invariant
            i <= parts@.len(),
            ps == strs_view(parts@),
            out@ == join(ps.subrange(0, i as int), sep@),
        decreases parts@.len() - i,
    {
        assert(ps.subrange(0, i + 1).drop_last() =~= ps.subrange(0, i as int));
        if i > 0 {
            push_str(&mut out, sep);
        }
        push_str(&mut out, parts[i]);
        assert(ps[i as int] == parts@[i as int]@);
        if i == 0 {
            assert(out@ =~= ps.subrange(0, 1)[0]);
        }
        i += 1;
    }
    assert(ps.subrange(0, i as int) =~= ps);
    out
}

/// `parts` joined with `sep`.
pub fn join_strings(parts: &Vec<String>, sep: &str) -> (r: String)
    ensures
        r@ == join(strings_view(parts@), sep@),
{
    let ghost ps = strings_view(parts@);
    let mut out = String::new();
    let mut i: usize = 0;
    while i < parts.len()
        invariant
            i <= parts@.len(),
            ps == strings_view(parts@),
            out@ == join(ps.subrange(0, i as int), sep@),
        decreases parts@.len() - i,
    {
        assert(ps.subrange(0, i + 1).drop_last() =~= ps.subrange(0, i as int));
        if i > 0 {
            push_str(&mut out, sep);
        }
        push_str(&mut out, parts[i].as_str());
        assert(ps[i as int] == parts@[i as int]@);
        if i == 0 {
            assert(out@ =~= ps.subrange(0, 1)[0]);
        }
        i += 1;
    }
    assert(ps.subrange(0, i as int) =~= ps);
    out
}

/// The first variable definition named `n`, from index `k` on.
pub open spec fn first_variable_named(vars: Seq<VariableDefinitionView>, n: Seq<char>, k: int) -> Option<VariableDefinitionView>
    decreases vars.len() - k,
{
    if k < 0 || k >= vars.len() {
        None
    } else if vars[k].name == Some(n) {
        Some(vars[k])
    } else {
        first_variable_named(vars, n, k + 1)
    }
}

/// The first rule with the target `t`, from index `k` on.
pub open spec fn first_rule_with_target(rules: Seq<RuleView>, t: Seq<char>, k: int) -> Option<RuleView>
    decreases rules.len() - k,
{
    if k < 0 || k >= rules.len() {
        None
    } else if rules[k].targets.contains(t) {
        Some(rules[k])
    } else {
        first_rule_with_target(rules, t, k + 1)
    }
}

/// The recipe lines, each after a newline and a tab.
pub open spec fn recipe_block(recipes: Seq<Seq<char>>) -> Seq<char>
    decreases recipes.len(),
{
    if recipes.len() == 0 {
        seq![]
    } else {
        recipe_block(recipes.drop_last()) + "\n\t"@ + recipes.last()
    }
}

/// The hover of a built-in function: its signature and description.
pub open spec fn function_hover(f: crate::builtins::BuiltinFunctionSpec) -> Seq<char> {
    "`$("@ + f.name + " "@ + join(f.params, ","@) + ")` — "@ + f.doc
}

/// The hover of a user variable: its definition.
pub open spec fn variable_hover(n: Seq<char>, v: VariableDefinitionView) -> Seq<char> {
    "```makefile\n"@ + n + " "@ + (match v.operator {
        Some(op) => op,
        None => "="@,
    }) + " "@ + (match v.raw_value {
        Some(raw) => decode_utf8(trimmed(crate::strs::utf8(raw))),
        None => seq![],
    }) + "\n```"@
}

/// The hover of a target: its prerequisites and recipe.
pub open spec fn rule_hover(w: Seq<char>, r: RuleView) -> Seq<char> {
    "**`"@ + w + "`**"@ + (if r.prerequisites.len() > 0 {
        "\n\nPrerequisites: `"@ + join(r.prerequisites, " "@) + "`"@
    } else {
        seq![]
    }) + (if r.recipes.len() > 0 {
        "\n\n```makefile"@ + recipe_block(r.recipes) + "\n```"@
    } else {
        seq![]
    })
}

/// The name under which a referenced name is looked up as a function: its
/// first word, or the whole name when it has none.
pub open spec fn function_name_of(v: Seq<char>) -> Seq<char> {
    match first_word_range(crate::strs::utf8(v)) {
        Some((a, b)) => decode_utf8(crate::strs::utf8(v).subrange(a, b)),
        None => v,
    }
}

/// The hover at `position`: for a variable reference around it, the
/// description of an automatic variable, the signature of a built-in
/// function, or the definition of a user variable; for a word there, the
/// description of a special target, or, in the prerequisites, the rule of
/// that target.
pub open spec fn spec_hover(bs: Seq<u8>, text: Seq<char>, m: MakefileView, position: Position) -> Option<Seq<char>> {
    match spec_position_to_offset(bs, position) {
        None => None,
        Some(o) => match lossless_variable_name_at(text, o as usize) {
            Some(v) => match spec_automatic_doc(v) {
                Some(d) => Some("**`$"@ + v + "`** — "@ + d),
                None => match first_function_named(spec_builtin_functions(), function_name_of(v)) {
                    Some(f) => Some(function_hover(f)),
                    None => match first_variable_named(m.variables, v, 0) {
                        Some(def) => Some(variable_hover(v, def)),
                        None => match lookup_doc(spec_builtin_variable_docs(), v) {
                            Some(d) => Some("**`"@ + v + "`** — "@ + d),
                            None => None,
                        },
                    },
                },
            },
            None => match word_at(bs, o) {
                Some((s, e)) => {
                    let w = text_at(bs, s, e);
                    match lookup_doc(spec_special_targets(), w) {
                        Some(d) => Some("**`"@ + w + "`** — "@ + d),
                        None => if is_char_boundary(bs, o) && spec_is_in_prerequisites(bs, o) {
                            match first_rule_with_target(m.rules, w, 0) {
                                Some(r) => Some(rule_hover(w, r)),
                                None => None,
                            }
                        } else {
                            None
                        },
                    }
                },
                None => None,
            },
        },
    }
}

pub(crate) fn first_variable_index(makefile: &Makefile, n: &str) -> (r: Option<usize>)
    ensures
        match r {
            Some(k) => k < makefile.variables@.len() && first_variable_named(makefile@.variables, n@, 0) == Some(
                makefile@.variables[k as int],
            ),
            None => first_variable_named(makefile@.variables, n@, 0) is None,
        },
{
    let ghost vars = makefile@.variables;
    let mut k: usize = 0;
    while k < makefile.variables.len()
        invariant
            k <= makefile.variables@.len(),
            vars == makefile@.variables,
            first_variable_named(vars, n@, 0) == first_variable_named(vars, n@, k as int),
        decreases makefile.variables@.len() - k,
    {
        assert(vars[k as int] == makefile.variables@[k as int]@);
        let named = match &makefile.variables[k].name {
            Some(name) => str_eq(name.as_str(), n),
            None => false,
        };
        if named {
            return Some(k);
        }
        k += 1;
    }
    None
}

pub(crate) fn first_rule_index(makefile: &Makefile, t: &str) -> (r: Option<usize>)
    ensures
        match r {
            Some(k) => k < makefile.rules@.len() && first_rule_with_target(makefile@.rules, t@, 0) == Some(
                makefile@.rules[k as int],
            ),
            None => first_rule_with_target(makefile@.rules, t@, 0) is None,
        },
{
    let ghost rules = makefile@.rules;
    let mut k: usize = 0;
    while k < makefile.rules.len()
        invariant
            k <= makefile.rules@.len(),
            rules == makefile@.rules,
            first_rule_with_target(rules, t@, 0) == first_rule_with_target(rules, t@, k as int),
        decreases makefile.rules@.len() - k,
    {
        assert(rules[k as int] == makefile.rules@[k as int]@);
        if contains_string(&makefile.rules[k].targets, t) {
            return Some(k);
        }
        k += 1;
    }
    None
}

/// `a`, `b` and `c` joined.
fn concat3(a: &str, b: &str, c: &str) -> (s: String)
    ensures
        s@ == a@ + b@ + c@,
{
    let mut s = String::new();
    push_str(&mut s, a);
    push_str(&mut s, b);
    push_str(&mut s, c);
    s
}

fn function_hover_exec(f: &BuiltinFunction) -> (r: String)
    ensures
        r@ == function_hover(f@),
{
    let mut s = concat3("`$(", f.name, " ");
    let params = join_strs(&f.params, ",");
    push_str(&mut s, params.as_str());
    push_str(&mut s, ")` — ");
    push_str(&mut s, f.doc);
    s
}

fn variable_hover_exec(n: &str, v: &crate::makefile::VariableDefinition) -> (r: String)
    ensures
        r@ == variable_hover(n@, v@),
{
    let mut s = concat3("```makefile\n", n, " ");
    match &v.operator {
        Some(op) => push_str(&mut s, op.as_str()),
        None => push_str(&mut s, "="),
    }
    push_str(&mut s, " ");
    match &v.raw_value {
        Some(raw) => {
            let t = trim(raw.as_str());
            push_str(&mut s, t);
        },
        None => {},
    }
    push_str(&mut s, "\n```");
    assert(s@ =~= variable_hover(n@, v@));
    s
}

fn rule_hover_exec(w: &str, r: &crate::makefile::Rule) -> (out: String)
    ensures
        out@ == rule_hover(w@, r@),
{
    let mut s = concat3("**`", w, "`**");
    let ghost head = s@;
    if r.prerequisites.len() > 0 {
        push_str(&mut s, "\n\nPrerequisites: `");
        let joined = join_strings(&r.prerequisites, " ");
        push_str(&mut s, joined.as_str());
        push_str(&mut s, "`");
    }
    let ghost mid = s@;
    if r.recipes.len() > 0 {
        push_str(&mut s, "\n\n```makefile");
        let ghost rs = strings_view(r.recipes@);
        let ghost before = s@;
        let mut i: usize = 0;
        while i < r.recipes.len()
            invariant
                i <= r.recipes@.len(),
                rs == strings_view(r.recipes@),
                s@ == before + recipe_block(rs.subrange(0, i as int)),
            decreases r.recipes@.len() - i,
        {
            assert(rs.subrange(0, i + 1).drop_last() =~= rs.subrange(0, i as int));
            assert(rs[i as int] == r.recipes@[i as int]@);
            push_str(&mut s, "\n\t");
            push_str(&mut s, r.recipes[i].as_str());
            assert(s@ =~= before + recipe_block(rs.subrange(0, i + 1)));
            i += 1;
        }
        assert(rs.subrange(0, i as int) =~= rs);
        push_str(&mut s, "\n```");
    }
    assert(s@ =~= rule_hover(w@, r@));
    s
}

/// Get hover information for the symbol at the given position.
pub fn get_hover(makefile: &Makefile, source_text: &str, position: Position) -> (r: Option<Hover>)
    ensures
        match r {
            Some(h) => spec_hover(source_text.spec_bytes(), source_text@, makefile@, position) == Some(h.contents@),
            None => spec_hover(source_text.spec_bytes(), source_text@, makefile@, position) is None,
        },
{
    let ghost bs = source_text.spec_bytes();
    let offset = try_position_to_offset(source_text, position)?;
    if let Some(var_name) = lossless_variable_at_offset(source_text, offset) {
        if let Some(doc) = find_automatic_variable(var_name) {
            let mut s = concat3("**`$", var_name, "`** — ");
            push_str(&mut s, doc);
            return Some(Hover { contents: s });
        }
        let func_name = match first_word(var_name) {
            Some(w) => w,
            None => var_name,
        };
        assert(func_name@ == function_name_of(var_name@));
        if let Some(f) = find_builtin_function(func_name) {
            return Some(Hover { contents: function_hover_exec(&f) });
        }
        if let Some(k) = first_variable_index(makefile, var_name) {
            return Some(Hover { contents: variable_hover_exec(var_name, &makefile.variables[k]) });
        }
        if let Some(doc) = find_builtin_variable(var_name) {
            let mut s = concat3("**`", var_name, "`** — ");
            push_str(&mut s, doc);
            return Some(Hover { contents: s });
        }
        return None;
    }
    if let Some(word) = lossless_word_at_offset(source_text, offset) {
        if let Some(doc) = find_special_target(word) {
            let mut s = concat3("**`", word, "`** — ");
            push_str(&mut s, doc);
            return Some(Hover { contents: s });
        }
        if lossless_is_in_prerequisites(source_text, offset) {
            if let Some(k) = first_rule_index(makefile, word) {
                return Some(Hover { contents: rule_hover_exec(word, &makefile.rules[k]) });
            }
        }
    }
    None
}

/// The lines `lines` stand in `h` in their order, each after a newline and
/// a tab, the `i`-th at offset `ps[i]`.
pub open spec fn lines_in_order(h: Seq<char>, lines: Seq<Seq<char>>, ps: Seq<int>) -> bool {
    &&& ps.len() == lines.len()
    &&& forall|i: int|
        0 <= i < lines.len() ==> {
            &&& 0 <= #[trigger] ps[i]
            &&& ps[i] + 2 + lines[i].len() <= h.len()
            &&& h.subrange(ps[i], ps[i] + 2 + lines[i].len()) == "\n\t"@ + lines[i]
        }
    &&& forall|i: int, j: int| 0 <= i < j < lines.len() ==> #[trigger] ps[i] + 2 + lines[i].len() <= #[trigger] ps[j]
}

/// The first rule that lists `t` among its targets, from index `k0` on, is
/// missing exactly when no rule from there lists it; when found, it is the
/// rule at the least such index.
pub proof fn lemma_first_rule_with_target_is_first_listing(rules: Seq<RuleView>, t: Seq<char>, k0: int)
    requires
        0 <= k0,
    ensures
        first_rule_with_target(rules, t, k0) is None <==> forall|k: int|
            k0 <= k < rules.len() ==> !(#[trigger] rules[k]).targets.contains(t),
        first_rule_with_target(rules, t, k0) matches Some(r) ==> exists|k: int|
            k0 <= k < rules.len() && r == rules[k] && rules[k].targets.contains(t) && forall|j: int|
                k0 <= j < k ==> !(#[trigger] rules[j]).targets.contains(t),
    decreases rules.len() - k0,
{
    if k0 < rules.len() {
        lemma_first_rule_with_target_is_first_listing(rules, t, k0 + 1);
        if !rules[k0].targets.contains(t) {
            if let Some(r) = first_rule_with_target(rules, t, k0 + 1) {
                let k = choose|k: int|
                    k0 + 1 <= k < rules.len() && r == rules[k] && rules[k].targets.contains(t) && forall|j: int|
                        k0 + 1 <= j < k ==> !(#[trigger] rules[j]).targets.contains(t);
                assert forall|j: int| k0 <= j < k implies !(#[trigger] rules[j]).targets.contains(t) by {
                    if j > k0 {
                        assert(k0 + 1 <= j < k);
                    }
                }
            }
        } else {
            assert forall|j: int| k0 <= j < k0 implies !(#[trigger] rules[j]).targets.contains(t) by {}
        }
    }
}

/// Each prefix of the recipes gives a prefix of the recipe block.
proof fn lemma_recipe_block_prefix(rs: Seq<Seq<char>>, j: int)
    requires
        0 <= j <= rs.len(),
    ensures
        recipe_block(rs.subrange(0, j)).len() <= recipe_block(rs).len(),
        recipe_block(rs).subrange(0, recipe_block(rs.subrange(0, j)).len() as int) == recipe_block(rs.subrange(0, j)),
    decreases rs.len(),
{
    if j < rs.len() {
        lemma_recipe_block_prefix(rs.drop_last(), j);
        assert(rs.drop_last().subrange(0, j) =~= rs.subrange(0, j));
        let a = recipe_block(rs.drop_last());
        let p = recipe_block(rs.subrange(0, j));
        assert(recipe_block(rs) == a + "\n\t"@ + rs.last());
        assert(recipe_block(rs).subrange(0, p.len() as int) =~= a.subrange(0, p.len() as int));
    } else {
        assert(rs.subrange(0, j) =~= rs);
        assert(recipe_block(rs).subrange(0, recipe_block(rs).len() as int) =~= recipe_block(rs));
    }
}

/// The offset of line `i` in the recipe block.
pub open spec fn recipe_offsets(rs: Seq<Seq<char>>) -> Seq<int> {
    Seq::new(rs.len(), |i: int| recipe_block(rs.subrange(0, i)).len() as int)
}

/// The recipe block holds every recipe line, in order.
proof fn lemma_recipe_block_lines(rs: Seq<Seq<char>>)
    ensures
        lines_in_order(recipe_block(rs), rs, recipe_offsets(rs)),
{
    reveal_strlit("\n\t");
    let h = recipe_block(rs);
    let ps = recipe_offsets(rs);
    assert forall|i: int| 0 <= i < rs.len() implies {
        &&& 0 <= #[trigger] ps[i]
        &&& ps[i] + 2 + rs[i].len() <= h.len()
        &&& h.subrange(ps[i], ps[i] + 2 + rs[i].len()) == "\n\t"@ + rs[i]
    } by {
        let sub = rs.subrange(0, i + 1);
        assert(sub.drop_last() =~= rs.subrange(0, i));
        assert(sub.last() == rs[i]);
        let b = recipe_block(sub);
        assert(b == recipe_block(rs.subrange(0, i)) + "\n\t"@ + rs[i]);
        lemma_recipe_block_prefix(rs, i + 1);
        assert(h.subrange(ps[i], ps[i] + 2 + rs[i].len()) =~= b.subrange(ps[i], b.len() as int));
        assert(b.subrange(ps[i], b.len() as int) =~= "\n\t"@ + rs[i]);
    }
    assert forall|i: int, j: int| 0 <= i < j < rs.len() implies #[trigger] ps[i] + 2 + rs[i].len() <= #[trigger] ps[j] by {
        let sub = rs.subrange(0, i + 1);
        assert(sub.drop_last() =~= rs.subrange(0, i));
        assert(recipe_block(sub) == recipe_block(rs.subrange(0, i)) + "\n\t"@ + rs[i]);
        lemma_recipe_block_prefix(rs.subrange(0, j), i + 1);
        assert(rs.subrange(0, j).subrange(0, i + 1) =~= sub);
    }
}

/// The hover of a target starts with its name in bold and shows every one
/// of its recipe lines, in order, each after a newline and a tab.
pub proof fn lemma_rule_hover_shows_every_recipe_line(w: Seq<char>, r: RuleView)
    ensures
        ({
            let h = rule_hover(w, r);
            &&& h.len() >= w.len() + 6
            &&& h.subrange(0, w.len() + 6int) == "**`"@ + w + "`**"@
            &&& exists|ps: Seq<int>| lines_in_order(h, r.recipes, ps)
        }),
{
    reveal_strlit("**`");
    reveal_strlit("`**");
    reveal_strlit("\n\n```makefile");
    let h = rule_hover(w, r);
    let head = "**`"@ + w + "`**"@;
    let pre = if r.prerequisites.len() > 0 {
        "\n\nPrerequisites: `"@ + join(r.prerequisites, " "@) + "`"@
    } else {
        seq![]
    };
    let rest = if r.recipes.len() > 0 {
        "\n\n```makefile"@ + recipe_block(r.recipes) + "\n```"@
    } else {
        seq![]
    };
    assert("**`"@.len() == 3);
    assert("`**"@.len() == 3);
    assert(head.len() == w.len() + 6);
    assert(h == head + pre + rest);
    assert(h =~= head + (pre + rest));
    assert(h.subrange(0, w.len() + 6int) =~= head);
    if r.recipes.len() > 0 {
        let lead = head + pre + "\n\n```makefile"@;
        let block = recipe_block(r.recipes);
        assert(h =~= lead + block + "\n```"@);
        lemma_recipe_block_lines(r.recipes);
        let qs = recipe_offsets(r.recipes);
        let ps = Seq::new(r.recipes.len(), |i: int| lead.len() + qs[i]);
        assert forall|i: int| 0 <= i < r.recipes.len() implies {
            &&& 0 <= #[trigger] ps[i]
            &&& ps[i] + 2 + r.recipes[i].len() <= h.len()
            &&& h.subrange(ps[i], ps[i] + 2 + r.recipes[i].len()) == "\n\t"@ + r.recipes[i]
        } by {
            assert(0 <= qs[i]);
            assert(h.subrange(ps[i], ps[i] + 2 + r.recipes[i].len()) =~= block.subrange(
                qs[i],
                qs[i] + 2 + r.recipes[i].len(),
            ));
        }
        assert forall|i: int, j: int| 0 <= i < j < r.recipes.len() implies #[trigger] ps[i] + 2 + r.recipes[i].len()
            <= #[trigger] ps[j] by {
            assert(qs[i] + 2 + r.recipes[i].len() <= qs[j]);
        }
        assert(lines_in_order(h, r.recipes, ps));
    } else {
        let ps: Seq<int> = seq![];
        assert(lines_in_order(h, r.recipes, ps));
    }
}

/// Hovering a word of the prerequisites that is not a special target: there
/// is a hover exactly when some rule lists the word among its targets, and
/// it shows the first such rule, with every one of its recipe lines in
/// order.
pub proof fn lemma_prerequisite_hover_shows_first_rule(
    bs: Seq<u8>,
    text: Seq<char>,
    m: MakefileView,
    position: Position,
    o: int,
    s: int,
    e: int,
)
    requires
        spec_position_to_offset(bs, position) == Some(o),
        lossless_variable_name_at(text, o as usize) is None,
        word_at(bs, o) == Some((s, e)),
        lookup_doc(spec_special_targets(), text_at(bs, s, e)) is None,
        is_char_boundary(bs, o),
        spec_is_in_prerequisites(bs, o),
    ensures
        ({
            let w = text_at(bs, s, e);
            &&& spec_hover(bs, text, m, position) is Some <==> exists|k: int|
                0 <= k < m.rules.len() && (#[trigger] m.rules[k]).targets.contains(w)
            &&& spec_hover(bs, text, m, position) matches Some(h) ==> exists|k: int|
                {
                    &&& 0 <= k < m.rules.len()
                    &&& (#[trigger] m.rules[k]).targets.contains(w)
                    &&& forall|j: int| 0 <= j < k ==> !(#[trigger] m.rules[j]).targets.contains(w)
                    &&& h.subrange(0, w.len() + 6int) == "**`"@ + w + "`**"@
                    &&& exists|ps: Seq<int>| lines_in_order(h, m.rules[k].recipes, ps)
                }
        }),
{
    let w = text_at(bs, s, e);
    lemma_first_rule_with_target_is_first_listing(m.rules, w, 0);
    if let Some(r) = first_rule_with_target(m.rules, w, 0) {
        lemma_rule_hover_shows_every_recipe_line(w, r);
    }
}

} // verus!
