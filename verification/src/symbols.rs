//! Document symbol generation for Makefiles.

use vstd::prelude::*;
use vstd::string::StringSliceAdditionalSpecFns;
use vstd::utf8::*;

use crate::completion::{trim, trimmed};
use crate::hover::{join, join_strings};
use crate::makefile::{Makefile, RuleView, VariableDefinitionView};
use crate::position::{lsp_range, text_range_to_lsp_range, Range};
use crate::strs::utf8;

verus! {

broadcast use vstd::utf8::encode_utf8_decode_utf8;

/// The kind of a document symbol.
#[derive(Debug, Clone, Copy, PartialEq, Eq, Structural)]
pub enum SymbolKind {
    Function,
    Variable,
}

/// A symbol of the document: a rule or a variable definition.
pub struct DocumentSymbol {
    pub name: String,
    pub detail: Option<String>,
    pub kind: SymbolKind,
    pub range: Range,
    pub selection_range: Range,
}

pub struct DocumentSymbolView {
    pub name: Seq<char>,
    pub detail: Option<Seq<char>>,
    pub kind: SymbolKind,
    pub range: Range,
    pub selection_range: Range,
}

impl View for DocumentSymbol {
    type V = DocumentSymbolView;

    open spec fn view(&self) -> DocumentSymbolView {
        DocumentSymbolView {
            name: self.name@,
            detail: match self.detail {
                Some(d) => Some(d@),
                None => None,
            },
            kind: self.kind,
            range: self.range,
            selection_range: self.selection_range,
        }
    }
}

pub open spec fn symbols_view(v: Seq<DocumentSymbol>) -> Seq<DocumentSymbolView> {
    v.map_values(|s: DocumentSymbol| s@)
}

/// The symbols of the rules: each rule whose targets, joined with `, `,
/// are not empty, as a function spanning the rule.
pub open spec fn rule_symbols(bs: Seq<u8>, rules: Seq<RuleView>) -> Seq<DocumentSymbolView>
    decreases rules.len(),
{
    if rules.len() == 0 {
        seq![]
    } else {
        let r = rules.last();
        let name = join(r.targets, ", "@);
        rule_symbols(bs, rules.drop_last()) + if name.len() > 0 {
            seq![
                DocumentSymbolView {
                    name,
                    detail: None,
                    kind: SymbolKind::Function,
                    range: lsp_range(bs, r.range),
                    selection_range: lsp_range(bs, r.range),
                },
            ]
        } else {
            seq![]
        }
    }
}

/// The symbols of the named variable definitions, with their trimmed
/// values as detail.
pub open spec fn variable_symbols(bs: Seq<u8>, vars: Seq<VariableDefinitionView>) -> Seq<DocumentSymbolView>
    decreases vars.len(),
{
    if vars.len() == 0 {
        seq![]
    } else {
        let v = vars.last();
        variable_symbols(bs, vars.drop_last()) + match v.name {
            Some(name) => seq![
                DocumentSymbolView {
                    name,
                    detail: match v.raw_value {
                        Some(raw) => Some(decode_utf8(trimmed(utf8(raw)))),
                        None => None,
                    },
                    kind: SymbolKind::Variable,
                    range: lsp_range(bs, v.range),
                    selection_range: lsp_range(bs, v.range),
                },
            ],
            None => seq![],
        }
    }
}

/// Generate document symbols for a Makefile.
///
/// Returns rules as Function symbols and variable definitions as Variable symbols.
pub fn generate_document_symbols(makefile: &Makefile, source_text: &str) -> (r: Vec<DocumentSymbol>)
    requires
        source_text.spec_bytes().len() <= u32::MAX,
    ensures
        symbols_view(r@) == rule_symbols(source_text.spec_bytes(), makefile@.rules) + variable_symbols(
            source_text.spec_bytes(),
            makefile@.variables,
        ),
{
    let ghost bs = source_text.spec_bytes();
    let ghost rules = makefile@.rules;
    let ghost vars = makefile@.variables;
    let mut symbols: Vec<DocumentSymbol> = Vec::new();
    let mut i: usize = 0;
    while i < makefile.rules.len()
        invariant
            i <= makefile.rules@.len(),
            bs == source_text.spec_bytes(),
            bs.len() <= u32::MAX,
            rules == makefile@.rules,
            symbols_view(symbols@) == rule_symbols(bs, rules.subrange(0, i as int)),
        decreases makefile.rules@.len() - i,
    {
        let rule = &makefile.rules[i];
        assert(rules[i as int] == rule@);
        assert(rules.subrange(0, i + 1).drop_last() =~= rules.subrange(0, i as int));
        let ghost before = symbols_view(symbols@);
        let name = join_strings(&rule.targets, ", ");
        if name.as_str().as_bytes().len() > 0 {
            let range = text_range_to_lsp_range(source_text, rule.range);
            symbols.push(DocumentSymbol { name, detail: None, kind: SymbolKind::Function, range, selection_range: range });
            assert(symbols_view(symbols@) =~= before + seq![symbols@.last()@]);
        } else {
            assert(before + seq![] =~= before);
        }
        i += 1;
    }
    assert(rules.subrange(0, i as int) =~= rules);
    let ghost mid = symbols_view(symbols@);
    assert(mid + variable_symbols(bs, vars.subrange(0, 0)) =~= mid);
    let mut j: usize = 0;
    while j < makefile.variables.len()
        invariant
            j <= makefile.variables@.len(),
            bs == source_text.spec_bytes(),
            bs.len() <= u32::MAX,
            vars == makefile@.variables,
            symbols_view(symbols@) == mid + variable_symbols(bs, vars.subrange(0, j as int)),
        decreases makefile.variables@.len() - j,
    {
        let var = &makefile.variables[j];
        assert(vars[j as int] == var@);
        assert(vars.subrange(0, j + 1).drop_last() =~= vars.subrange(0, j as int));
        let ghost before = symbols_view(symbols@);
        match &var.name {
            Some(name) => {
                let range = text_range_to_lsp_range(source_text, var.range);
                let detail = match &var.raw_value {
                    Some(raw) => Some(trim(raw.as_str()).to_owned()),
                    None => None,
                };
                symbols.push(
                    DocumentSymbol {
                        name: name.clone(),
                        detail,
                        kind: SymbolKind::Variable,
                        range,
                        selection_range: range,
                    },
                );
                assert(symbols_view(symbols@) =~= before + seq![symbols@.last()@]);
            },
            None => {
                assert(before + seq![] =~= before);
            },
        }
        assert(symbols_view(symbols@) =~= mid + variable_symbols(bs, vars.subrange(0, j + 1)));
        j += 1;
    }
    assert(vars.subrange(0, j as int) =~= vars);
    symbols
}

} // verus!
