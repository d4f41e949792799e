//! The parts that declarations are made of: attributes, visibility, types,
//! generic parameters and `where` clauses, fields and variants.

use vstd::prelude::*;
use crate::doc::{cbox, end, hardbreak, offset, space, text, zerobreak, Op};
use crate::printer::{trailing_comma_doc, trailing_comma_or_space_doc, Printer, INDENT};
use crate::tree::{
    views, Abi, AbiView, Attribute, AttributeView, Delimiter, Field, FieldView, Fields, FieldsView,
    Generics, GenericsView, Macro, MacroView, PatType, PatTypeView, Type, TypeView, Variant,
    VariantView, Visibility, VisibilityView,
};

verus! {

/// An attribute of the wanted placement is written on a line of its own; one
/// of the other placement is passed over.
pub open spec fn attr_doc(a: AttributeView, inner: bool) -> Seq<Op> {
    if a.inner == inner {
        seq![text(a.text), hardbreak()]
    } else {
        seq![]
    }
}

/// The first `n` attributes, those of the wanted placement.
pub open spec fn attrs_doc(attrs: Seq<AttributeView>, inner: bool, n: nat) -> Seq<Op>
    decreases n,
{
    if n == 0 || n > attrs.len() {
        seq![]
    } else {
        attrs_doc(attrs, inner, (n - 1) as nat) + attr_doc(attrs[n - 1], inner)
    }
}

/// The attributes that stand before a node.
#[verifier::opaque]
pub open spec fn outer_attrs_doc(attrs: Seq<AttributeView>) -> Seq<Op> {
    attrs_doc(attrs, false, attrs.len())
}

/// The attributes that stand first inside the body of a node.
#[verifier::opaque]
pub open spec fn inner_attrs_doc(attrs: Seq<AttributeView>) -> Seq<Op> {
    attrs_doc(attrs, true, attrs.len())
}

/// Whether one of the first `n` attributes is an inner one.
pub open spec fn has_inner(attrs: Seq<AttributeView>, n: nat) -> bool
    decreases n,
{
    if n == 0 || n > attrs.len() {
        false
    } else {
        has_inner(attrs, (n - 1) as nat) || attrs[n - 1].inner
    }
}

/// A visibility marker, with the space behind it; nothing where none is
/// written.
#[verifier::opaque]
pub open spec fn visibility_doc(v: VisibilityView) -> Seq<Op> {
    match v {
        VisibilityView::Inherited => seq![],
        VisibilityView::Public => seq![text("pub "@)],
        VisibilityView::Restricted { in_token, path } => if in_token {
            seq![text("pub("@), text("in "@), text(path), text(") "@)]
        } else {
            seq![text("pub("@), text(path), text(") "@)]
        },
    }
}

/// What stands between the `&` of a reference and what it refers to.
pub open spec fn reference_doc(lifetime: Option<Seq<char>>, mutable: bool) -> Seq<Op> {
    (match lifetime {
        Some(l) => seq![text(l), text(" "@)],
        None => seq![],
    }) + (if mutable {
        seq![text("mut "@)]
    } else {
        seq![]
    })
}

/// A type: a reference by its parts, any other type as written.
#[verifier::opaque]
pub open spec fn type_doc(t: TypeView) -> Seq<Op>
    decreases t,
{
    match t {
        TypeView::Reference { lifetime, mutable, elem } => seq![text("&"@)] + reference_doc(
            lifetime,
            mutable,
        ) + type_doc(*elem),
        TypeView::Path { qself, path } => seq![text(path)],
        TypeView::Other(t) => seq![text(t)],
    }
}

/// The first `n` generic parameters, each ended as an element of its list.
pub open spec fn params_doc(params: Seq<Seq<char>>, n: nat) -> Seq<Op>
    decreases n,
{
    if n == 0 || n > params.len() {
        seq![]
    } else {
        params_doc(params, (n - 1) as nat) + seq![text(params[n - 1])] + trailing_comma_doc(
            n == params.len(),
        )
    }
}

/// Generic parameters: nothing where there are none; else the list between
/// angle brackets, in a box of its own.
#[verifier::opaque]
pub open spec fn generics_doc(g: GenericsView) -> Seq<Op> {
    if g.params.len() == 0 {
        seq![]
    } else {
        seq![text("<"@), cbox(0), zerobreak()] + params_doc(g.params, g.params.len()) + seq![
            offset(-INDENT as int),
            end(),
            text(">"@),
        ]
    }
}

/// How the predicate at place `k` of a `where` clause ends.
pub open spec fn predicate_end_doc(k: int, len: nat, hardbreaks: bool, semi: bool) -> Seq<Op> {
    if k + 1 == len && semi {
        seq![text(";"@)]
    } else if hardbreaks {
        seq![text(","@), hardbreak()]
    } else {
        trailing_comma_or_space_doc(k + 1 == len)
    }
}

/// The first `n` predicates of a `where` clause.
pub open spec fn predicates_doc(preds: Seq<Seq<char>>, n: nat, hardbreaks: bool, semi: bool) -> Seq<Op>
    decreases n,
{
    if n == 0 || n > preds.len() {
        seq![]
    } else {
        predicates_doc(preds, (n - 1) as nat, hardbreaks, semi) + seq![text(preds[n - 1])]
            + predicate_end_doc(n - 1, preds.len(), hardbreaks, semi)
    }
}

/// A `where` clause in one of its four placements.
///
/// With `hardbreaks` the clause stands on lines of its own, one predicate to
/// a line; without, it stays on the line as long as it fits. With `semi` a
/// semicolon ends the declaration behind the clause; without, what follows
/// is moved back to the indentation of the declaration. Where there is no
/// predicate, only the semicolon is left, or a space in its place.
#[verifier::opaque]
pub open spec fn where_doc(w: Option<Seq<Seq<char>>>, hardbreaks: bool, semi: bool) -> Seq<Op> {
    if w is None || w->0.len() == 0 {
        if semi {
            seq![text(";"@)]
        } else {
            seq![text(" "@)]
        }
    } else {
        (if hardbreaks {
            seq![hardbreak(), offset(-INDENT as int), text("where"@), hardbreak()]
        } else {
            seq![space(), offset(-INDENT as int), text("where"@), space()]
        }) + predicates_doc(w->0, w->0.len(), hardbreaks, semi) + (if semi {
            seq![]
        } else {
            seq![offset(-INDENT as int)]
        })
    }
}

/// Before the brace that opens a body: on lines of its own.
pub open spec fn where_for_body_doc(g: GenericsView) -> Seq<Op> {
    where_doc(g.where_clause, true, false)
}

/// Before the semicolon of a declaration without a body: on lines of its own.
pub open spec fn where_semi_doc(g: GenericsView) -> Seq<Op> {
    where_doc(g.where_clause, true, true)
}

/// Before the `=` of an alias: on the line.
pub open spec fn where_oneline_doc(g: GenericsView) -> Seq<Op> {
    where_doc(g.where_clause, false, false)
}

/// Behind the type of an alias, before its semicolon: on the line.
pub open spec fn where_oneline_semi_doc(g: GenericsView) -> Seq<Op> {
    where_doc(g.where_clause, false, true)
}

impl Printer {
    /// Writes the attributes that stand before a node.
    pub fn outer_attrs(&mut self, attrs: &Vec<Attribute>)
        requires
            old(self).wf(),
        ensures
            final(self)@ == old(self)@ + outer_attrs_doc(views(attrs@)),
            final(self).open() == old(self).open(),
            final(self).wf(),
    {
        reveal(outer_attrs_doc);
        self.attrs(attrs, false);
    }

    /// Writes the attributes that stand first inside a body.
    pub fn inner_attrs(&mut self, attrs: &Vec<Attribute>)
        requires
            old(self).wf(),
        ensures
            final(self)@ == old(self)@ + inner_attrs_doc(views(attrs@)),
            final(self).open() == old(self).open(),
            final(self).wf(),
    {
        reveal(inner_attrs_doc);
        self.attrs(attrs, true);
    }

    fn attrs(&mut self, attrs: &Vec<Attribute>, inner: bool)
        requires
            old(self).wf(),
        ensures
            final(self)@ == old(self)@ + attrs_doc(views(attrs@), inner, attrs@.len()),
            final(self).open() == old(self).open(),
            final(self).wf(),
    {
        let ghost v = views(attrs@);
        let mut i: usize = 0;
        assert(self@ =~= old(self)@ + attrs_doc(v, inner, 0));
        while i < attrs.len()
            invariant
                i <= attrs.len(),
                v == views(attrs@),
                self@ == old(self)@ + attrs_doc(v, inner, i as nat),
                self.open() == old(self).open(),
                self.wf(),
            decreases attrs.len() - i,
        {
            let ghost before = self@;
            if attrs[i].inner == inner {
                self.ident(&attrs[i].text);
                self.hardbreak();
            }
            assert(self@ =~= before + attr_doc(v[i as int], inner));
            assert(self@ =~= old(self)@ + attrs_doc(v, inner, (i + 1) as nat));
            i = i + 1;
        }
    }

    /// Writes a visibility marker.
    pub fn visibility(&mut self, vis: &Visibility)
        requires
            old(self).wf(),
        ensures
            final(self)@ == old(self)@ + visibility_doc(vis@),
            final(self).open() == old(self).open(),
            final(self).wf(),
    {
        reveal(visibility_doc);
        match vis {
            Visibility::Inherited => {},
            Visibility::Public => {
                self.word("pub ");
            },
            Visibility::Restricted { in_token, path } => {
                self.word("pub(");
                if *in_token {
                    self.word("in ");
                }
                self.ident(path);
                self.word(") ");
            },
        }
        assert(self@ =~= old(self)@ + visibility_doc(vis@));
    }

    /// Writes a type.
    pub fn ty(&mut self, ty: &Type)
        requires
            old(self).wf(),
        ensures
            final(self)@ == old(self)@ + type_doc(ty@),
            final(self).open() == old(self).open(),
            final(self).wf(),
        decreases ty,
    {
        reveal(type_doc);
        match ty {
            Type::Reference { lifetime, mutable, elem } => {
                self.word("&");
                match lifetime {
                    Some(l) => {
                        self.ident(l);
                        self.nbsp();
                    },
                    None => {},
                }
                if *mutable {
                    self.word("mut ");
                }
                let ghost before = self@;
                assert(before =~= old(self)@ + (seq![text("&"@)] + reference_doc(ty@->lifetime, *mutable)));
                self.ty(elem);
                assert(self@ =~= old(self)@ + type_doc(ty@));
            },
            Type::Path { qself, path } => {
                self.ident(path);
                assert(self@ =~= old(self)@ + type_doc(ty@));
            },
            Type::Other(t) => {
                self.ident(t);
                assert(self@ =~= old(self)@ + type_doc(ty@));
            },
        }
    }

    /// Writes generic parameters.
    pub fn generics(&mut self, generics: &Generics)
        requires
            old(self).wf(),
        ensures
            final(self)@ == old(self)@ + generics_doc(generics@),
            final(self).open() == old(self).open(),
            final(self).wf(),
    {
        reveal(generics_doc);
        let ghost v = views(generics.params@);
        if generics.params.len() == 0 {
            assert(self@ =~= old(self)@ + generics_doc(generics@));
            return ;
        }
        self.word("<");
        self.cbox(0);
        self.zerobreak();
        let ghost head = self@;
        let mut i: usize = 0;
        assert(self@ =~= head + params_doc(v, 0));
        while i < generics.params.len()
            invariant
                i <= generics.params.len(),
                v == views(generics.params@),
                self@ == head + params_doc(v, i as nat),
                self.open() == old(self).open() + 1,
                self.wf(),
            decreases generics.params.len() - i,
        {
            self.ident(&generics.params[i]);
            self.trailing_comma(i + 1 == generics.params.len());
            assert(self@ =~= head + params_doc(v, (i + 1) as nat));
            i = i + 1;
        }
        self.offset(-INDENT);
        self.end();
        self.word(">");
        assert(self@ =~= old(self)@ + generics_doc(generics@));
    }

    fn where_clause(&mut self, generics: &Generics, hardbreaks: bool, semi: bool)
        requires
            old(self).wf(),
        ensures
            final(self)@ == old(self)@ + where_doc(generics@.where_clause, hardbreaks, semi),
            final(self).open() == old(self).open(),
            final(self).wf(),
    {
        reveal(where_doc);
        let ghost w = generics@.where_clause;
        match &generics.where_clause {
            Some(preds) => {
                if preds.len() > 0 {
                    let ghost v = views(preds@);
                    if hardbreaks {
                        self.hardbreak();
                        self.offset(-INDENT);
                        self.word("where");
                        self.hardbreak();
                    } else {
                        self.space();
                        self.offset(-INDENT);
                        self.word("where");
                        self.space();
                    }
                    let ghost head = self@;
                    let mut i: usize = 0;
                    assert(self@ =~= head + predicates_doc(v, 0, hardbreaks, semi));
                    while i < preds.len()
                        invariant
                            i <= preds.len(),
                            v == views(preds@),
                            self@ == head + predicates_doc(v, i as nat, hardbreaks, semi),
                            self.open() == old(self).open(),
                            self.wf(),
                        decreases preds.len() - i,
                    {
                        let is_last: bool = i + 1 == preds.len();
                        let ghost before = self@;
                        self.ident(&preds[i]);
                        if is_last && semi {
                            self.word(";");
                        } else if hardbreaks {
                            self.word(",");
                            self.hardbreak();
                        } else {
                            self.trailing_comma_or_space(is_last);
                        }
                        assert(self@ =~= before + seq![text(v[i as int])] + predicate_end_doc(
                            i as int,
                            v.len(),
                            hardbreaks,
                            semi,
                        ));
                        assert(self@ =~= head + predicates_doc(v, (i + 1) as nat, hardbreaks, semi));
                        i = i + 1;
                    }
                    if !semi {
                        self.offset(-INDENT);
                    }
                    assert(self@ =~= old(self)@ + where_doc(w, hardbreaks, semi));
                    return ;
                }
            },
            None => {},
        }
        if semi {
            self.word(";");
        } else {
            self.nbsp();
        }
        assert(self@ =~= old(self)@ + where_doc(w, hardbreaks, semi));
    }

    /// Writes a `where` clause before the brace that opens a body.
    pub fn where_clause_for_body(&mut self, generics: &Generics)
        requires
            old(self).wf(),
        ensures
            final(self)@ == old(self)@ + where_for_body_doc(generics@),
            final(self).open() == old(self).open(),
            final(self).wf(),
    {
        self.where_clause(generics, true, false);
    }

    /// Writes a `where` clause and the semicolon of a declaration without a
    /// body.
    pub fn where_clause_semi(&mut self, generics: &Generics)
        requires
            old(self).wf(),
        ensures
            final(self)@ == old(self)@ + where_semi_doc(generics@),
            final(self).open() == old(self).open(),
            final(self).wf(),
    {
        self.where_clause(generics, true, true);
    }

    /// Writes the `where` clause of an alias, before its `=`.
    pub fn where_clause_oneline(&mut self, generics: &Generics)
        requires
            old(self).wf(),
        ensures
            final(self)@ == old(self)@ + where_oneline_doc(generics@),
            final(self).open() == old(self).open(),
            final(self).wf(),
    {
        self.where_clause(generics, false, false);
    }

    /// Writes the `where` clause behind the type of an alias, and its
    /// semicolon.
    pub fn where_clause_oneline_semi(&mut self, generics: &Generics)
        requires
            old(self).wf(),
        ensures
            final(self)@ == old(self)@ + where_oneline_semi_doc(generics@),
            final(self).open() == old(self).open(),
            final(self).wf(),
    {
        self.where_clause(generics, false, true);
    }
}


/// `extern` and the name of the interface, each with a space behind it.
#[verifier::opaque]
pub open spec fn abi_doc(a: AbiView) -> Seq<Op> {
    match a.name {
        Some(name) => seq![text("extern "@), text(name), text(" "@)],
        None => seq![text("extern "@)],
    }
}

/// A return type behind its arrow; nothing where none is written.
#[verifier::opaque]
pub open spec fn return_type_doc(output: Option<TypeView>) -> Seq<Op> {
    match output {
        Some(t) => seq![text(" -> "@)] + type_doc(t),
        None => seq![],
    }
}

/// A parameter: its attributes, its pattern, a colon, its type.
#[verifier::opaque]
pub open spec fn pat_type_doc(p: PatTypeView) -> Seq<Op> {
    outer_attrs_doc(p.attrs) + seq![text(p.pat), text(": "@)] + type_doc(p.ty)
}

/// What opens the tokens of a macro invocation.
pub open spec fn delimiter_open(d: Delimiter) -> Seq<char> {
    match d {
        Delimiter::Paren => "("@,
        Delimiter::Brace => " {"@,
        Delimiter::Bracket => "["@,
    }
}

/// What closes the tokens of a macro invocation.
pub open spec fn delimiter_close(d: Delimiter) -> Seq<char> {
    match d {
        Delimiter::Paren => ")"@,
        Delimiter::Brace => "}"@,
        Delimiter::Bracket => "]"@,
    }
}

/// A macro invocation: its path, `!`, the name it defines if any, and its
/// tokens as written between their own delimiters; between braces they keep
/// a space to either side.
#[verifier::opaque]
pub open spec fn mac_doc(m: MacroView, ident: Option<Seq<char>>) -> Seq<Op> {
    seq![text(m.path), text("!"@)] + (match ident {
        Some(name) => seq![text(" "@), text(name)],
        None => seq![],
    }) + seq![text(delimiter_open(m.delimiter))] + (if m.tokens.len() == 0 {
        seq![]
    } else if m.delimiter == Delimiter::Brace {
        seq![text(" "@), text(m.tokens), text(" "@)]
    } else {
        seq![text(m.tokens)]
    }) + seq![text(delimiter_close(m.delimiter))]
}

/// The semicolon behind a macro invocation in the place of a declaration:
/// needed behind parentheses and brackets, not behind braces.
#[verifier::opaque]
pub open spec fn mac_semi_doc(d: Delimiter) -> Seq<Op> {
    match d {
        Delimiter::Brace => seq![],
        _ => seq![text(";"@)],
    }
}

/// A field: its attributes, its visibility, its name with a colon where it has
/// one, its type.
#[verifier::opaque]
pub open spec fn field_doc(f: FieldView) -> Seq<Op> {
    outer_attrs_doc(f.attrs) + visibility_doc(f.vis) + (match f.ident {
        Some(name) => seq![text(name), text(": "@)],
        None => seq![],
    }) + type_doc(f.ty)
}

/// The first `n` fields of a list on the line, each ended as an element of
/// its list; `spaced` for a list that keeps a space inside its braces.
pub open spec fn inline_fields_doc(fields: Seq<FieldView>, n: nat, spaced: bool) -> Seq<Op>
    decreases n,
{
    if n == 0 || n > fields.len() {
        seq![]
    } else {
        inline_fields_doc(fields, (n - 1) as nat, spaced) + field_doc(fields[n - 1]) + (if spaced {
            trailing_comma_or_space_doc(n == fields.len())
        } else {
            trailing_comma_doc(n == fields.len())
        })
    }
}

/// Positional fields: between parentheses, separated by commas, on the line
/// while they fit.
#[verifier::opaque]
pub open spec fn fields_unnamed_doc(fields: Seq<FieldView>) -> Seq<Op> {
    seq![text("("@), zerobreak()] + inline_fields_doc(fields, fields.len(), false) + seq![
        offset(-INDENT as int),
        text(")"@),
    ]
}

/// The fields of a variant, on the line while they fit: named ones between
/// braces, positional ones between parentheses.
#[verifier::opaque]
pub open spec fn variant_fields_doc(fields: FieldsView) -> Seq<Op> {
    match fields {
        FieldsView::Named(fields) => seq![text(" "@), text("{"@), cbox(INDENT as int), space()]
            + inline_fields_doc(fields, fields.len(), true) + seq![
            offset(-INDENT as int),
            end(),
            text("}"@),
        ],
        FieldsView::Unnamed(fields) => seq![cbox(INDENT as int)] + fields_unnamed_doc(fields) + seq![
            end(),
        ],
        FieldsView::Unit => seq![],
    }
}

/// An optional value behind ` = `.
#[verifier::opaque]
pub open spec fn initializer_doc(value: Option<Seq<char>>) -> Seq<Op> {
    match value {
        Some(value) => seq![text(" = "@), text(value)],
        None => seq![],
    }
}

/// A variant: its attributes, its name, its fields, its value.
#[verifier::opaque]
pub open spec fn variant_doc(v: VariantView) -> Seq<Op> {
    outer_attrs_doc(v.attrs) + seq![text(v.ident)] + variant_fields_doc(v.fields) + initializer_doc(
        v.discriminant,
    )
}

impl Printer {
    /// Writes `extern` and the name of the interface.
    pub fn abi(&mut self, abi: &Abi)
        requires
            old(self).wf(),
        ensures
            final(self)@ == old(self)@ + abi_doc(abi@),
            final(self).open() == old(self).open(),
            final(self).wf(),
    {
        reveal(abi_doc);
        self.word("extern ");
        match &abi.name {
            Some(name) => {
                self.ident(name);
                self.nbsp();
            },
            None => {},
        }
        assert(self@ =~= old(self)@ + abi_doc(abi@));
    }

    /// Writes a return type behind its arrow.
    pub fn return_type(&mut self, output: &Option<Type>)
        requires
            old(self).wf(),
        ensures
            final(self)@ == old(self)@ + return_type_doc(crate::tree::view_option(*output)),
            final(self).open() == old(self).open(),
            final(self).wf(),
    {
        reveal(return_type_doc);
        match output {
            Some(t) => {
                self.word(" -> ");
                self.ty(t);
            },
            None => {},
        }
        assert(self@ =~= old(self)@ + return_type_doc(crate::tree::view_option(*output)));
    }

    /// Writes a parameter that is a pattern and its type.
    pub fn pat_type(&mut self, pat_type: &PatType)
        requires
            old(self).wf(),
        ensures
            final(self)@ == old(self)@ + pat_type_doc(pat_type@),
            final(self).open() == old(self).open(),
            final(self).wf(),
    {
        reveal(pat_type_doc);
        self.outer_attrs(&pat_type.attrs);
        self.ident(&pat_type.pat);
        self.word(": ");
        self.ty(&pat_type.ty);
        assert(self@ =~= old(self)@ + pat_type_doc(pat_type@));
    }

    /// Writes a macro invocation.
    pub fn mac(&mut self, mac: &Macro, ident: Option<&String>)
        requires
            old(self).wf(),
        ensures
            final(self)@ == old(self)@ + mac_doc(
                mac@,
                match ident {
                    Some(name) => Some(name@),
                    None => None,
                },
            ),
            final(self).open() == old(self).open(),
            final(self).wf(),
    {
        reveal(mac_doc);
        self.ident(&mac.path);
        self.word("!");
        match ident {
            Some(name) => {
                self.nbsp();
                self.ident(name);
            },
            None => {},
        }
        match mac.delimiter {
            Delimiter::Paren => self.word("("),
            Delimiter::Brace => self.word(" {"),
            Delimiter::Bracket => self.word("["),
        }
        if mac.tokens.as_str().unicode_len() > 0 {
            match mac.delimiter {
                Delimiter::Brace => {
                    self.nbsp();
                    self.ident(&mac.tokens);
                    self.nbsp();
                },
                _ => {
                    self.ident(&mac.tokens);
                },
            }
        }
        match mac.delimiter {
            Delimiter::Paren => self.word(")"),
            Delimiter::Brace => self.word("}"),
            Delimiter::Bracket => self.word("]"),
        }
        assert(self@ =~= old(self)@ + mac_doc(
            mac@,
            match ident {
                Some(name) => Some(name@),
                None => None,
            },
        ));
    }

    /// Writes the semicolon behind a macro invocation, where its delimiter
    /// needs one.
    pub fn mac_semi_if_needed(&mut self, delimiter: &Delimiter)
        requires
            old(self).wf(),
        ensures
            final(self)@ == old(self)@ + mac_semi_doc(*delimiter),
            final(self).open() == old(self).open(),
            final(self).wf(),
    {
        reveal(mac_semi_doc);
        match delimiter {
            Delimiter::Brace => {},
            _ => {
                self.word(";");
            },
        }
        assert(self@ =~= old(self)@ + mac_semi_doc(*delimiter));
    }

    /// Writes a field.
    pub fn field(&mut self, field: &Field)
        requires
            old(self).wf(),
        ensures
            final(self)@ == old(self)@ + field_doc(field@),
            final(self).open() == old(self).open(),
            final(self).wf(),
    {
        reveal(field_doc);
        self.outer_attrs(&field.attrs);
        self.visibility(&field.vis);
        match &field.ident {
            Some(name) => {
                self.ident(name);
                self.word(": ");
            },
            None => {},
        }
        self.ty(&field.ty);
        assert(self@ =~= old(self)@ + field_doc(field@));
    }

    fn inline_fields(&mut self, fields: &Vec<Field>, spaced: bool)
        requires
            old(self).wf(),
        ensures
            final(self)@ == old(self)@ + inline_fields_doc(views(fields@), fields@.len(), spaced),
            final(self).open() == old(self).open(),
            final(self).wf(),
    {
        let mut i: usize = 0;
        assert(self@ =~= old(self)@ + inline_fields_doc(views(fields@), 0, spaced));
        while i < fields.len()
            invariant
                i <= fields.len(),
                self@ == old(self)@ + inline_fields_doc(views(fields@), i as nat, spaced),
                self.open() == old(self).open(),
                self.wf(),
            decreases fields.len() - i,
        {
            self.field(&fields[i]);
            if spaced {
                self.trailing_comma_or_space(i + 1 == fields.len());
            } else {
                self.trailing_comma(i + 1 == fields.len());
            }
            assert(self@ =~= old(self)@ + inline_fields_doc(views(fields@), (i + 1) as nat, spaced));
            i = i + 1;
        }
    }

    /// Writes positional fields between their parentheses.
    pub fn fields_unnamed(&mut self, fields: &Vec<Field>)
        requires
            old(self).wf(),
        ensures
            final(self)@ == old(self)@ + fields_unnamed_doc(views(fields@)),
            final(self).open() == old(self).open(),
            final(self).wf(),
    {
        reveal(fields_unnamed_doc);
        self.word("(");
        self.zerobreak();
        self.inline_fields(fields, false);
        self.offset(-INDENT);
        self.word(")");
        assert(self@ =~= old(self)@ + fields_unnamed_doc(views(fields@)));
    }

    fn variant_fields(&mut self, fields: &Fields)
        requires
            old(self).wf(),
        ensures
            final(self)@ == old(self)@ + variant_fields_doc(fields@),
            final(self).open() == old(self).open(),
            final(self).wf(),
    {
        reveal(variant_fields_doc);
        match fields {
            Fields::Named(fields) => {
                self.nbsp();
                self.word("{");
                self.cbox(INDENT);
                self.space();
                self.inline_fields(fields, true);
                self.offset(-INDENT);
                self.end();
                self.word("}");
            },
            Fields::Unnamed(fields) => {
                self.cbox(INDENT);
                self.fields_unnamed(fields);
                self.end();
            },
            Fields::Unit => {},
        }
        assert(self@ =~= old(self)@ + variant_fields_doc(fields@));
    }

    /// Writes a variant.
    pub fn variant(&mut self, variant: &Variant)
        requires
            old(self).wf(),
        ensures
            final(self)@ == old(self)@ + variant_doc(variant@),
            final(self).open() == old(self).open(),
            final(self).wf(),
    {
        reveal(variant_doc);
        reveal(initializer_doc);
        self.outer_attrs(&variant.attrs);
        self.ident(&variant.ident);
        self.variant_fields(&variant.fields);
        let ghost before = self@;
        match &variant.discriminant {
            Some(value) => {
                self.word(" = ");
                self.ident(value);
            },
            None => {},
        }
        assert(self@ =~= before + initializer_doc(crate::tree::text_option(variant.discriminant)));
        assert(self@ =~= old(self)@ + variant_doc(variant@));
    }
}

} // verus!
