use vstd::prelude::*;

use crate::error::Error;
use crate::ser::text_is;
use crate::types::SmithType;
use vstd::string::StringExecFns;

verus! {

/// A struct declaration as written, before expansion.
pub struct ParsedStruct {
    pub name: String,
    pub generics: Vec<String>,
    pub fields: Vec<(String, SmithType<String>)>,
}

/// An enum declaration as written, before expansion.
pub struct ParsedEnum {
    pub name: String,
    pub generics: Vec<String>,
    pub variants: Vec<(String, Option<SmithType<String>>)>,
}

/// A top-level declaration of a schema.
pub enum ASTRootType {
    Struct(ParsedStruct),
    Enum(ParsedEnum),
}

/// The declarations of a schema in source order.
pub struct AST(pub Vec<ASTRootType>);

/// What every top-level declaration offers.
pub trait RootDeclaration {
    spec fn spec_name(&self) -> Seq<char>;

    spec fn spec_generics(&self) -> Seq<String>;

    fn name(&self) -> (r: &String)
        ensures
            r@ == self.spec_name(),
    ;

    fn generics(&self) -> (r: &Vec<String>)
        ensures
            r@ == self.spec_generics(),
    ;
}

impl RootDeclaration for ParsedStruct {
    open spec fn spec_name(&self) -> Seq<char> {
        self.name@
    }

    open spec fn spec_generics(&self) -> Seq<String> {
        self.generics@
    }

    fn name(&self) -> (r: &String) {
        &self.name
    }

    fn generics(&self) -> (r: &Vec<String>) {
        &self.generics
    }
}

impl RootDeclaration for ParsedEnum {
    open spec fn spec_name(&self) -> Seq<char> {
        self.name@
    }

    open spec fn spec_generics(&self) -> Seq<String> {
        self.generics@
    }

    fn name(&self) -> (r: &String) {
        &self.name
    }

    fn generics(&self) -> (r: &Vec<String>) {
        &self.generics
    }
}

impl RootDeclaration for ASTRootType {
    open spec fn spec_name(&self) -> Seq<char> {
        match self {
            ASTRootType::Struct(s) => s.name@,
            ASTRootType::Enum(e) => e.name@,
        }
    }

    open spec fn spec_generics(&self) -> Seq<String> {
        match self {
            ASTRootType::Struct(s) => s.generics@,
            ASTRootType::Enum(e) => e.generics@,
        }
    }

    fn name(&self) -> (r: &String) {
        match self {
            ASTRootType::Struct(s) => &s.name,
            ASTRootType::Enum(e) => &e.name,
        }
    }

    fn generics(&self) -> (r: &Vec<String>) {
        match self {
            ASTRootType::Struct(s) => &s.generics,
            ASTRootType::Enum(e) => &e.generics,
        }
    }
}

/// Relies on `String::push`: appends one character.
#[verifier::external_body]
pub(crate) fn push_char(s: &mut String, c: char)
    ensures
        final(s)@ == old(s)@.push(c),
{
    s.push(c)
}

impl AST {
    fn new() -> (r: Self)
        ensures
            r.0@.len() == 0,
    {
        AST(Vec::new())
    }

    /// The names of the declarations, in order, with their parameters: `[A, B<T,U>]`.
    pub fn to_string(&self) -> (r: String)
        ensures
            r@ == seq!['['] + roots_text(self.0@) + seq![']'],
    {
        let mut s = String::new();
        push_char(&mut s, '[');
        let mut i: usize = 0;
        while i < self.0.len()
            invariant
                0 <= i <= self.0@.len(),
                s@ == seq!['['] + roots_text(self.0@.take(i as int)),
            decreases self.0@.len() - i,
        {
            let ghost before = s@;
            if i > 0 {
                s.append(", ");
            }
            let ghost mid = s@;
            s.append(self.0[i].name().as_str());
            let g = self.0[i].generics();
            if g.len() > 0 {
                s.append("<");
                let ghost start = s@;
                let mut j: usize = 0;
                while j < g.len()
                    invariant
                        0 <= j <= g@.len(),
                        s@ == start + generics_text(g@.take(j as int)),
                    decreases g@.len() - j,
                {
                    proof {
                        assert(g@.take(j + 1).drop_last() =~= g@.take(j as int));
                        assert(g@.take(j + 1).last() == g@[j as int]);
                    }
                    if j > 0 {
                        s.append(",");
                    }
                    s.append(g[j].as_str());
                    proof {
                        if j == 0 {
                            assert(g@.take(1)[0] == g@[0]);
                            assert(s@ =~= start + generics_text(g@.take(1)));
                        } else {
                            assert(s@ =~= start + generics_text(g@.take(j + 1)));
                        }
                    }
                    j = j + 1;
                }
                s.append(">");
                proof {
                    assert(g@.take(j as int) =~= g@);
                }
            }
            proof {
                assert(s@ =~= mid + root_text(self.0@[i as int]));
                let rs = self.0@.take(i + 1);
                assert(rs.drop_last() =~= self.0@.take(i as int));
                assert(rs.last() == self.0@[i as int]);
                if i == 0 {
                    assert(rs[0] == self.0@[0]);
                    assert(s@ =~= seq!['['] + roots_text(rs));
                } else {
                    assert(s@ =~= seq!['['] + roots_text(rs));
                }
            }
            i = i + 1;
        }
        push_char(&mut s, ']');
        proof {
            assert(self.0@.take(i as int) =~= self.0@);
        }
        s
    }
}

/// The generic parameter names separated by commas.
pub open spec fn generics_text(g: Seq<String>) -> Seq<char>
    decreases g.len(),
{
    if g.len() == 0 {
        Seq::empty()
    } else if g.len() == 1 {
        g[0]@
    } else {
        generics_text(g.drop_last()) + ","@ + g.last()@
    }
}

/// A declaration's name, with `<A,B>` where it has parameters.
pub open spec fn root_text(r: ASTRootType) -> Seq<char> {
    if r.spec_generics().len() == 0 {
        r.spec_name()
    } else {
        r.spec_name() + "<"@ + generics_text(r.spec_generics()) + ">"@
    }
}

/// The declarations' texts separated by `, `.
pub open spec fn roots_text(rs: Seq<ASTRootType>) -> Seq<char>
    decreases rs.len(),
{
    if rs.len() == 0 {
        Seq::empty()
    } else if rs.len() == 1 {
        root_text(rs[0])
    } else {
        roots_text(rs.drop_last()) + ", "@ + root_text(rs.last())
    }
}

pub open spec fn is_letter(c: char) -> bool {
    ('a' <= c && c <= 'z') || ('A' <= c && c <= 'Z')
}

pub open spec fn is_ident_char(c: char) -> bool {
    is_letter(c) || ('0' <= c && c <= '9') || c == '_'
}

pub open spec fn is_space(c: char) -> bool {
    c == ' ' || c == '\t' || c == '\n' || c == '\r'
}

/// A letter, then letters, digits and underscores.
pub open spec fn ident_ok(s: Seq<char>) -> bool {
    s.len() > 0 && is_letter(s[0]) && forall|i: int| 0 <= i < s.len() ==> is_ident_char(#[trigger] s[i])
}

/// Every name that `t` writes is an identifier.
pub open spec fn type_names_ok(t: SmithType<String>) -> bool
    decreases t,
{
    match t {
        SmithType::CustomType(n, args) => ident_ok(n@) && args_names_ok(args@),
        SmithType::Array(e) => type_names_ok(*e),
        _ => true,
    }
}

pub open spec fn args_names_ok(args: Seq<SmithType<String>>) -> bool
    decreases args,
{
    args.len() == 0 || (args_names_ok(args.drop_last()) && type_names_ok(args.last()))
}

/// The characters of `s`.
pub fn chars_of(s: &str) -> (r: Vec<char>)
    ensures
        r@ == s@,
{
    let n = s.unicode_len();
    let mut out: Vec<char> = Vec::new();
    let mut i: usize = 0;
    while i < n
        invariant
            n == s@.len(),
            0 <= i <= n,
            out@ == s@.take(i as int),
        decreases n - i,
    {
        out.push(s.get_char(i));
        assert(s@.take(i + 1) =~= s@.take(i as int).push(s@[i as int]));
        i = i + 1;
    }
    assert(s@.take(n as int) =~= s@);
    out
}

/// Where whitespace and comments starting at `p` end, or the position of a
/// block comment left open. `mode` is 0 between tokens, 1 inside a line
/// comment, 2 inside a block comment opened at `start`.
pub open spec fn trivia_from(cs: Seq<char>, p: int, mode: int, start: int) -> Result<int, int>
    decreases cs.len() - p,
{
    if p < 0 || p >= cs.len() {
        if mode == 2 {
            Err(start)
        } else {
            Ok(p)
        }
    } else if mode == 1 {
        if cs[p] == '\n' {
            trivia_from(cs, p + 1, 0, start)
        } else {
            trivia_from(cs, p + 1, 1, start)
        }
    } else if mode == 2 {
        if p + 1 >= cs.len() {
            Err(start)
        } else if cs[p] == '*' && cs[p + 1] == '/' {
            trivia_from(cs, p + 2, 0, start)
        } else {
            trivia_from(cs, p + 1, 2, start)
        }
    } else if is_space(cs[p]) {
        trivia_from(cs, p + 1, 0, start)
    } else if cs[p] == '/' && p + 1 < cs.len() && cs[p + 1] == '/' {
        trivia_from(cs, p + 2, 1, start)
    } else if cs[p] == '/' && p + 1 < cs.len() && cs[p + 1] == '*' {
        trivia_from(cs, p + 2, 2, p)
    } else {
        Ok(p)
    }
}

/// Where the whitespace and comments at `p` end.
pub open spec fn trivia(cs: Seq<char>, p: int) -> Result<int, int> {
    trivia_from(cs, p, 0, p)
}

/// Where the identifier characters from `p` on end.
pub open spec fn ident_end(cs: Seq<char>, p: int) -> int
    decreases cs.len() - p,
{
    if 0 <= p < cs.len() && is_ident_char(cs[p]) {
        ident_end(cs, p + 1)
    } else {
        p
    }
}

/// Skips whitespace, `//` line comments and `/* */` block comments.
fn skip_trivia(cs: &Vec<char>, pos: usize) -> (r: Result<usize, Error>)
    requires
        pos <= cs@.len(),
    ensures
        r matches Ok(p) ==> pos <= p <= cs@.len() && (p == cs@.len() || !is_space(cs@[p as int])),
        r matches Err(e) ==> e is ParseError && e->ParseError_0 <= cs@.len(),
        match trivia(cs@, pos as int) {
            Ok(q) => r matches Ok(x) && x == q,
            Err(e) => r matches Err(er) && er is ParseError && er->ParseError_0 == e,
        },
{
    let mut p = pos;
    let mut mode: u8 = 0;
    let mut start: usize = pos;
    while p < cs.len()
        invariant
            pos <= p <= cs@.len(),
            mode <= 2,
            start < cs@.len() || mode != 2,
            start <= cs@.len(),
            trivia(cs@, pos as int) == trivia_from(cs@, p as int, mode as int, start as int),
        decreases cs@.len() - p,
    {
        let c = cs[p];
        if mode == 1 {
            mode = if c == '\n' { 0 } else { 1 };
            p = p + 1;
        } else if mode == 2 {
            if cs.len() - p < 2 {
                return Err(Error::ParseError(start));
            }
            if c == '*' && cs[p + 1] == '/' {
                mode = 0;
                p = p + 2;
            } else {
                p = p + 1;
            }
        } else if c == ' ' || c == '\t' || c == '\n' || c == '\r' {
            p = p + 1;
        } else if c == '/' && p + 1 < cs.len() && cs[p + 1] == '/' {
            mode = 1;
            p = p + 2;
        } else if c == '/' && p + 1 < cs.len() && cs[p + 1] == '*' {
            mode = 2;
            start = p;
            p = p + 2;
        } else {
            return Ok(p);
        }
    }
    if mode == 2 {
        return Err(Error::ParseError(start));
    }
    Ok(p)
}

/// Reads an identifier starting at `pos`.
fn read_ident(cs: &Vec<char>, pos: usize) -> (r: Option<(String, usize)>)
    requires
        pos <= cs@.len(),
    ensures
        r matches Some((s, p)) ==> pos < p <= cs@.len() && s@ == cs@.subrange(pos as int, p as int)
            && ident_ok(s@) && p == ident_end(cs@, pos + 1),
        r is None <==> pos == cs@.len() || !is_letter(cs@[pos as int]),
{
    if pos >= cs.len() {
        return None;
    }
    let c0 = cs[pos];
    if !(('a' <= c0 && c0 <= 'z') || ('A' <= c0 && c0 <= 'Z')) {
        return None;
    }
    let mut s = String::new();
    push_char(&mut s, c0);
    assert(cs@.subrange(pos as int, pos + 1) =~= seq![c0]);
    assert(s@ =~= seq![c0]);
    let mut p = pos + 1;
    while p < cs.len()
        invariant
            pos <= p <= cs@.len(),
            pos < cs@.len(),
            s@ == cs@.subrange(pos as int, p as int),
            p > pos,
            is_letter(s@[0]),
            forall|i: int| 0 <= i < s@.len() ==> is_ident_char(#[trigger] s@[i]),
            ident_end(cs@, pos + 1) == ident_end(cs@, p as int),
        ensures
            pos < p <= cs@.len(),
            s@ == cs@.subrange(pos as int, p as int),
            is_letter(s@[0]),
            forall|i: int| 0 <= i < s@.len() ==> is_ident_char(#[trigger] s@[i]),
            ident_end(cs@, pos + 1) == p,
        decreases cs@.len() - p,
    {
        let c = cs[p];
        if !(('a' <= c && c <= 'z') || ('A' <= c && c <= 'Z') || ('0' <= c && c <= '9') || c
            == '_') {
            assert(!is_ident_char(cs@[p as int]));
            assert(ident_end(cs@, p as int) == p as int);
            break;
        }
        push_char(&mut s, c);
        assert(cs@.subrange(pos as int, p + 1) =~= cs@.subrange(pos as int, p as int).push(c));
        p = p + 1;
    }
    Some((s, p))
}

fn at(cs: &Vec<char>, pos: usize, c: char) -> (r: bool)
    ensures
        r == (pos < cs@.len() && cs@[pos as int] == c),
        r ==> pos < usize::MAX,
{
    pos < cs.len() && cs[pos] == c
}

/// A type as written: a name and its type arguments.
pub enum TypeSyntax {
    Node(Seq<char>, Seq<TypeSyntax>),
}

/// The primitive that a keyword of the schema language names.
pub open spec fn keyword_type(name: Seq<char>) -> Option<SmithType<String>> {
    if name == "i8"@ {
        Some(SmithType::I8)
    } else if name == "i16"@ {
        Some(SmithType::I16)
    } else if name == "i32"@ {
        Some(SmithType::I32)
    } else if name == "f32"@ {
        Some(SmithType::F32)
    } else if name == "f64"@ {
        Some(SmithType::F64)
    } else if name == "u8"@ {
        Some(SmithType::U8)
    } else if name == "u16"@ {
        Some(SmithType::U16)
    } else if name == "u32"@ {
        Some(SmithType::U32)
    } else if name == "u64"@ {
        Some(SmithType::U64)
    } else if name == "udInt"@ {
        Some(SmithType::UInt)
    } else if name == "bool"@ {
        Some(SmithType::Bool)
    } else if name == "string"@ {
        Some(SmithType::String)
    } else {
        None
    }
}

/// A name takes `n` type arguments legally: none for a primitive, one for `Array`.
pub open spec fn build_ok(name: Seq<char>, n: nat) -> bool {
    if keyword_type(name) is Some {
        n == 0
    } else if name == "Array"@ {
        n == 1
    } else {
        true
    }
}

/// `t` is the type that syntax `s` stands for.
pub open spec fn denotes(t: SmithType<String>, s: TypeSyntax) -> bool
    decreases s,
{
    match s {
        TypeSyntax::Node(name, args) => match keyword_type(name) {
            Some(k) => t == k,
            None => if name == "Array"@ {
                args.len() == 1 && (t matches SmithType::Array(e) && denotes(*e, args[0]))
            } else {
                t matches SmithType::CustomType(n, targs) && n@ == name && all_denote(targs@, args)
            },
        },
    }
}

pub open spec fn all_denote(ts: Seq<SmithType<String>>, ss: Seq<TypeSyntax>) -> bool
    decreases ss,
{
    ts.len() == ss.len() && (ss.len() == 0 || (all_denote(ts.drop_last(), ss.drop_last())
        && denotes(ts.last(), ss.last())))
}

/// A finished type node, or the position where it started if it takes a
/// wrong number of arguments.
pub open spec fn finish(name: Seq<char>, args: Seq<TypeSyntax>, start: int, end: int) -> Result<(TypeSyntax, int), int> {
    if build_ok(name, args.len()) {
        Ok((TypeSyntax::Node(name, args), end))
    } else {
        Err(start)
    }
}

/// The type written at `p` and where it ends, or the position of the first
/// error; `fuel` bounds the nesting of type arguments.
pub open spec fn ptyp(cs: Seq<char>, p: int, fuel: nat) -> Result<(TypeSyntax, int), int>
    decreases fuel, 0int,
{
    if !(0 <= p < cs.len() && is_letter(cs[p])) {
        Err(p)
    } else {
        let q = ident_end(cs, p + 1);
        let name = cs.subrange(p, q);
        match trivia(cs, q) {
            Err(e) => Err(e),
            Ok(q1) => if 0 <= q1 < cs.len() && cs[q1] == '<' {
                if fuel == 0 {
                    Err(q1)
                } else {
                    pargs(cs, q1 + 1, (fuel - 1) as nat, p, name, Seq::empty())
                }
            } else {
                finish(name, Seq::empty(), p, q)
            },
        }
    }
}

/// The type arguments from `p` on, after those in `acc`, of a type named
/// `name` that starts at `start`.
pub open spec fn pargs(
    cs: Seq<char>,
    p: int,
    fuel: nat,
    start: int,
    name: Seq<char>,
    acc: Seq<TypeSyntax>,
) -> Result<(TypeSyntax, int), int>
    decreases fuel, cs.len() - p + 1,
{
    if p < 0 || p > cs.len() {
        Err(p)
    } else {
        match trivia(cs, p) {
            Err(e) => Err(e),
            Ok(q) => match ptyp(cs, q, fuel) {
                Err(e) => Err(e),
                Ok((t, q2)) => match trivia(cs, q2) {
                    Err(e) => Err(e),
                    Ok(q3) => if 0 <= q3 < cs.len() && cs[q3] == ',' {
                        if q3 + 1 > p {
                            pargs(cs, q3 + 1, fuel, start, name, acc.push(t))
                        } else {
                            Err(q3)
                        }
                    } else if 0 <= q3 < cs.len() && cs[q3] == '>' {
                        finish(name, acc.push(t), start, q3 + 1)
                    } else {
                        Err(q3)
                    },
                },
            },
        }
    }
}

/// How deep type arguments may nest in a schema.
pub const MAX_TYPE_DEPTH: usize = 64;

/// The type whose name is `name`, with arguments `args`: a primitive keyword,
/// `Array` of one argument, or a reference to a declaration.
fn type_of_name(name: String, args: Vec<SmithType<String>>, at_pos: usize, Ghost(syn): Ghost<Seq<TypeSyntax>>) -> (r: Result<SmithType<String>, Error>)
    requires
        ident_ok(name@),
        args_names_ok(args@),
        all_denote(args@, syn),
    ensures
        r matches Ok(t) ==> type_names_ok(t),
        r matches Err(e) ==> e == Error::ParseError(at_pos),
        r is Ok <==> build_ok(name@, syn.len()),
        r matches Ok(t) ==> denotes(t, TypeSyntax::Node(name@, syn)),
{
    let prim = if text_is(&name, "i8") {
        Some(SmithType::I8)
    } else if text_is(&name, "i16") {
        Some(SmithType::I16)
    } else if text_is(&name, "i32") {
        Some(SmithType::I32)
    } else if text_is(&name, "f32") {
        Some(SmithType::F32)
    } else if text_is(&name, "f64") {
        Some(SmithType::F64)
    } else if text_is(&name, "u8") {
        Some(SmithType::U8)
    } else if text_is(&name, "u16") {
        Some(SmithType::U16)
    } else if text_is(&name, "u32") {
        Some(SmithType::U32)
    } else if text_is(&name, "u64") {
        Some(SmithType::U64)
    } else if text_is(&name, "udInt") {
        Some(SmithType::UInt)
    } else if text_is(&name, "bool") {
        Some(SmithType::Bool)
    } else if text_is(&name, "string") {
        Some(SmithType::String)
    } else {
        None
    };
    match prim {
        Some(t) => {
            if args.len() > 0 {
                Err(Error::ParseError(at_pos))
            } else {
                Ok(t)
            }
        },
        None => {
            if text_is(&name, "Array") {
                if args.len() != 1 {
                    return Err(Error::ParseError(at_pos));
                }
                let mut args = args;
                proof {
                    assert(args@.drop_last().len() == 0);
                    assert(args@.last() == args@[0]);
                    assert(syn.last() == syn[0]);
                }
                let e = args.pop().unwrap();
                Ok(SmithType::Array(Box::new(e)))
            } else {
                Ok(SmithType::CustomType(name, args))
            }
        },
    }
}

/// Parses a type starting at `pos`.
fn parse_typ(cs: &Vec<char>, pos: usize, fuel: usize) -> (r: Result<(SmithType<String>, usize), Error>)
    requires
        pos <= cs@.len(),
    ensures
        r matches Ok((t, p)) ==> pos < p <= cs@.len() && type_names_ok(t),
        r matches Err(e) ==> e is ParseError && e->ParseError_0 <= cs@.len(),
        match ptyp(cs@, pos as int, fuel as nat) {
            Ok((syn, q)) => r matches Ok((t, p)) && p == q && denotes(t, syn),
            Err(e) => r matches Err(er) && er is ParseError && er->ParseError_0 == e,
        },
    decreases fuel,
{
    let (name, mut p) = match read_ident(cs, pos) {
        Some(x) => x,
        None => {
            return Err(Error::ParseError(pos));
        },
    };
    let mut args: Vec<SmithType<String>> = Vec::new();
    let ghost mut acc: Seq<TypeSyntax> = Seq::empty();
    let q = skip_trivia(cs, p)?;
    if at(cs, q, '<') {
        if fuel == 0 {
            return Err(Error::ParseError(q));
        }
        p = q + 1;
        loop
            invariant_except_break
                ptyp(cs@, pos as int, fuel as nat) == pargs(cs@, p as int, (fuel - 1) as nat, pos as int, name@, acc),
            invariant
                pos < p <= cs@.len(),
                fuel > 0,
                ident_ok(name@),
                args_names_ok(args@),
                all_denote(args@, acc),
            ensures
                pos < p <= cs@.len(),
                ident_ok(name@),
                args_names_ok(args@),
                all_denote(args@, acc),
                ptyp(cs@, pos as int, fuel as nat) == finish(name@, acc, pos as int, p as int),
            decreases cs@.len() - p,
        {
            let q = skip_trivia(cs, p)?;
            let (t, q2) = parse_typ(cs, q, fuel - 1)?;
            let ghost syn_t = ptyp(cs@, q as int, (fuel - 1) as nat)->Ok_0.0;
            proof {
                assert(args@.push(t).drop_last() =~= args@);
                assert(acc.push(syn_t).drop_last() =~= acc);
            }
            args.push(t);
            proof {
                acc = acc.push(syn_t);
            }
            let q3 = skip_trivia(cs, q2)?;
            if at(cs, q3, ',') {
                p = q3 + 1;
            } else if at(cs, q3, '>') {
                p = q3 + 1;
                break;
            } else {
                return Err(Error::ParseError(q3));
            }
        }
    } else {
        proof {
            assert(ptyp(cs@, pos as int, fuel as nat) == finish(name@, acc, pos as int, p as int));
        }
    }
    let t = type_of_name(name, args, pos, Ghost(acc))?;
    Ok((t, p))
}

/// The parameter list at `p`: none without `<`, else names separated by
/// commas up to `>`; and where it ends.
pub open spec fn pgens(cs: Seq<char>, p: int) -> Result<(Seq<Seq<char>>, int), int> {
    if 0 <= p < cs.len() && cs[p] == '<' {
        pgen_list(cs, p + 1, Seq::empty())
    } else {
        Ok((Seq::empty(), p))
    }
}

pub open spec fn pgen_list(cs: Seq<char>, p: int, acc: Seq<Seq<char>>) -> Result<(Seq<Seq<char>>, int), int>
    decreases cs.len() - p + 1,
{
    if p < 0 || p > cs.len() {
        Err(p)
    } else {
        match trivia(cs, p) {
            Err(e) => Err(e),
            Ok(q) => if !(0 <= q < cs.len() && is_letter(cs[q])) {
                Err(q)
            } else {
                let q2 = ident_end(cs, q + 1);
                let g = cs.subrange(q, q2);
                match trivia(cs, q2) {
                    Err(e) => Err(e),
                    Ok(q3) => if 0 <= q3 < cs.len() && cs[q3] == ',' {
                        if q3 + 1 > p {
                            pgen_list(cs, q3 + 1, acc.push(g))
                        } else {
                            Err(q3)
                        }
                    } else if 0 <= q3 < cs.len() && cs[q3] == '>' {
                        Ok((acc.push(g), q3 + 1))
                    } else {
                        Err(q3)
                    },
                }
            },
        }
    }
}

/// The strings `v` read as `names`.
pub open spec fn names_are(v: Seq<String>, names: Seq<Seq<char>>) -> bool {
    v.len() == names.len() && forall|i: int| 0 <= i < v.len() ==> (#[trigger] v[i])@ == names[i]
}

/// Parses `<A, B, ...>` if it stands at `pos`.
fn parse_generics(cs: &Vec<char>, pos: usize) -> (r: Result<(Vec<String>, usize), Error>)
    requires
        pos <= cs@.len(),
    ensures
        r matches Ok((g, p)) ==> pos <= p <= cs@.len() && forall|i: int|
            0 <= i < g@.len() ==> ident_ok(#[trigger] g@[i]@),
        r matches Err(e) ==> e is ParseError && e->ParseError_0 <= cs@.len(),
        match pgens(cs@, pos as int) {
            Ok((names, q)) => r matches Ok((g, p)) && p == q && names_are(g@, names),
            Err(e) => r matches Err(er) && er is ParseError && er->ParseError_0 == e,
        },
{
    let mut gens: Vec<String> = Vec::new();
    if !at(cs, pos, '<') {
        return Ok((gens, pos));
    }
    let mut p = pos + 1;
    let ghost mut acc: Seq<Seq<char>> = Seq::empty();
    loop
        invariant
            pos < p <= cs@.len(),
            pos < usize::MAX,
            forall|i: int| 0 <= i < gens@.len() ==> ident_ok(#[trigger] gens@[i]@),
            names_are(gens@, acc),
            pgens(cs@, pos as int) == pgen_list(cs@, p as int, acc),
        decreases cs@.len() - p,
    {
        let q = skip_trivia(cs, p)?;
        let (g, q2) = match read_ident(cs, q) {
            Some(x) => x,
            None => {
                return Err(Error::ParseError(q));
            },
        };
        let ghost gv = g@;
        gens.push(g);
        proof {
            acc = acc.push(gv);
        }
        let q3 = skip_trivia(cs, q2)?;
        if at(cs, q3, ',') {
            p = q3 + 1;
        } else if at(cs, q3, '>') {
            return Ok((gens, q3 + 1));
        } else {
            return Err(Error::ParseError(q3));
        }
    }
}

/// Every name in a struct declaration is an identifier.
pub open spec fn struct_ok(s: ParsedStruct) -> bool {
    &&& ident_ok(s.name@)
    &&& forall|i: int| 0 <= i < s.generics@.len() ==> ident_ok(#[trigger] s.generics@[i]@)
    &&& forall|i: int|
        0 <= i < s.fields@.len() ==> ident_ok((#[trigger] s.fields@[i]).0@) && type_names_ok(
            s.fields@[i].1,
        )
}

/// Every name in an enum declaration is an identifier.
pub open spec fn enum_ok(e: ParsedEnum) -> bool {
    &&& ident_ok(e.name@)
    &&& forall|i: int| 0 <= i < e.generics@.len() ==> ident_ok(#[trigger] e.generics@[i]@)
    &&& forall|i: int|
        0 <= i < e.variants@.len() ==> ident_ok((#[trigger] e.variants@[i]).0@) && match e.variants@[i].1 {
            Some(t) => type_names_ok(t),
            None => true,
        }
}

pub open spec fn root_ok(r: ASTRootType) -> bool {
    match r {
        ASTRootType::Struct(s) => struct_ok(s),
        ASTRootType::Enum(e) => enum_ok(e),
    }
}

/// A declaration as written.
pub enum RootSyntax {
    StructDecl(Seq<char>, Seq<Seq<char>>, Seq<(Seq<char>, TypeSyntax)>),
    EnumDecl(Seq<char>, Seq<Seq<char>>, Seq<(Seq<char>, Option<TypeSyntax>)>),
}

/// `Name<generics> {` from `p` on: the name, the parameters and where the body starts.
pub open spec fn pheader(cs: Seq<char>, p: int) -> Result<(Seq<char>, Seq<Seq<char>>, int), int> {
    match trivia(cs, p) {
        Err(e) => Err(e),
        Ok(q) => if !(0 <= q < cs.len() && is_letter(cs[q])) {
            Err(q)
        } else {
            let q2 = ident_end(cs, q + 1);
            match trivia(cs, q2) {
                Err(e) => Err(e),
                Ok(q3) => match pgens(cs, q3) {
                    Err(e) => Err(e),
                    Ok((g, q4)) => match trivia(cs, q4) {
                        Err(e) => Err(e),
                        Ok(q5) => if 0 <= q5 < cs.len() && cs[q5] == '{' {
                            Ok((cs.subrange(q, q2), g, q5 + 1))
                        } else {
                            Err(q5)
                        },
                    },
                },
            }
        },
    }
}

/// Struct fields `name: Type` from `p` on, after those in `acc`, up to `}`.
pub open spec fn pfields(cs: Seq<char>, p: int, acc: Seq<(Seq<char>, TypeSyntax)>) -> Result<
    (Seq<(Seq<char>, TypeSyntax)>, int),
    int,
>
    decreases cs.len() - p + 1,
{
    if p < 0 || p > cs.len() {
        Err(p)
    } else {
        match trivia(cs, p) {
            Err(e) => Err(e),
            Ok(q) => if 0 <= q < cs.len() && cs[q] == '}' {
                Ok((acc, q + 1))
            } else if !(0 <= q < cs.len() && is_letter(cs[q])) {
                Err(q)
            } else {
                let q2 = ident_end(cs, q + 1);
                match trivia(cs, q2) {
                    Err(e) => Err(e),
                    Ok(q3) => if !(0 <= q3 < cs.len() && cs[q3] == ':') {
                        Err(q3)
                    } else {
                        match trivia(cs, q3 + 1) {
                            Err(e) => Err(e),
                            Ok(q4) => match ptyp(cs, q4, MAX_TYPE_DEPTH as nat) {
                                Err(e) => Err(e),
                                Ok((t, q5)) => match trivia(cs, q5) {
                                    Err(e) => Err(e),
                                    Ok(q6) => {
                                        let np = if 0 <= q6 < cs.len() && cs[q6] == ',' {
                                            q6 + 1
                                        } else {
                                            q6
                                        };
                                        if np > p && np <= cs.len() {
                                            pfields(cs, np, acc.push((cs.subrange(q, q2), t)))
                                        } else {
                                            Err(np)
                                        }
                                    },
                                },
                            },
                        }
                    },
                }
            },
        }
    }
}

/// Enum variants `Name` or `Name(Type)` from `p` on, after those in `acc`, up to `}`.
pub open spec fn pvariants(cs: Seq<char>, p: int, acc: Seq<(Seq<char>, Option<TypeSyntax>)>) -> Result<
    (Seq<(Seq<char>, Option<TypeSyntax>)>, int),
    int,
>
    decreases cs.len() - p + 1,
{
    if p < 0 || p > cs.len() {
        Err(p)
    } else {
        match trivia(cs, p) {
            Err(e) => Err(e),
            Ok(q) => if 0 <= q < cs.len() && cs[q] == '}' {
                Ok((acc, q + 1))
            } else if !(0 <= q < cs.len() && is_letter(cs[q])) {
                Err(q)
            } else {
                let q2 = ident_end(cs, q + 1);
                match trivia(cs, q2) {
                    Err(e) => Err(e),
                    Ok(q3) => match ppayload(cs, q3) {
                        Err(e) => Err(e),
                        Ok((payload, after)) => match trivia(cs, after) {
                            Err(e) => Err(e),
                            Ok(q7) => {
                                let np = if 0 <= q7 < cs.len() && cs[q7] == ',' {
                                    q7 + 1
                                } else {
                                    q7
                                };
                                if np > p && np <= cs.len() {
                                    pvariants(cs, np, acc.push((cs.subrange(q, q2), payload)))
                                } else {
                                    Err(np)
                                }
                            },
                        },
                    },
                }
            },
        }
    }
}

/// An optional `(Type)` at `p`, and where it ends.
pub open spec fn ppayload(cs: Seq<char>, p: int) -> Result<(Option<TypeSyntax>, int), int> {
    if 0 <= p < cs.len() && cs[p] == '(' {
        match trivia(cs, p + 1) {
            Err(e) => Err(e),
            Ok(q1) => match ptyp(cs, q1, MAX_TYPE_DEPTH as nat) {
                Err(e) => Err(e),
                Ok((t, q2)) => match trivia(cs, q2) {
                    Err(e) => Err(e),
                    Ok(q3) => if 0 <= q3 < cs.len() && cs[q3] == ')' {
                        Ok((Some(t), q3 + 1))
                    } else {
                        Err(q3)
                    },
                },
            },
        }
    } else {
        Ok((None, p))
    }
}

/// A struct declaration after the keyword `struct`.
pub open spec fn pstruct(cs: Seq<char>, p: int) -> Result<(RootSyntax, int), int> {
    match pheader(cs, p) {
        Err(e) => Err(e),
        Ok((name, g, q)) => match pfields(cs, q, Seq::empty()) {
            Err(e) => Err(e),
            Ok((fs, q2)) => Ok((RootSyntax::StructDecl(name, g, fs), q2)),
        },
    }
}

/// An enum declaration after the keyword `enum`.
pub open spec fn penum(cs: Seq<char>, p: int) -> Result<(RootSyntax, int), int> {
    match pheader(cs, p) {
        Err(e) => Err(e),
        Ok((name, g, q)) => match pvariants(cs, q, Seq::empty()) {
            Err(e) => Err(e),
            Ok((vs, q2)) => Ok((RootSyntax::EnumDecl(name, g, vs), q2)),
        },
    }
}

pub open spec fn fields_denote(fs: Seq<(String, SmithType<String>)>, syn: Seq<(Seq<char>, TypeSyntax)>) -> bool {
    fs.len() == syn.len() && forall|i: int|
        0 <= i < fs.len() ==> (#[trigger] fs[i]).0@ == syn[i].0 && denotes(fs[i].1, syn[i].1)
}

pub open spec fn variants_denote(
    vs: Seq<(String, Option<SmithType<String>>)>,
    syn: Seq<(Seq<char>, Option<TypeSyntax>)>,
) -> bool {
    vs.len() == syn.len() && forall|i: int|
        0 <= i < vs.len() ==> (#[trigger] vs[i]).0@ == syn[i].0 && match (vs[i].1, syn[i].1) {
            (Some(t), Some(x)) => denotes(t, x),
            (None, None) => true,
            _ => false,
        }
}

/// Declaration `r` is what `s` writes: same kind, name, parameters, fields or
/// variants in order, payload presence and types.
pub open spec fn root_denotes(r: ASTRootType, s: RootSyntax) -> bool {
    match (r, s) {
        (ASTRootType::Struct(st), RootSyntax::StructDecl(name, g, fs)) => st.name@ == name && names_are(
            st.generics@,
            g,
        ) && fields_denote(st.fields@, fs),
        (ASTRootType::Enum(en), RootSyntax::EnumDecl(name, g, vs)) => en.name@ == name && names_are(
            en.generics@,
            g,
        ) && variants_denote(en.variants@, vs),
        _ => false,
    }
}

/// Parses `Name<generics> {`.
fn parse_header(cs: &Vec<char>, pos: usize) -> (r: Result<(String, Vec<String>, usize), Error>)
    requires
        pos <= cs@.len(),
    ensures
        r matches Err(e) ==> e is ParseError && e->ParseError_0 <= cs@.len(),
        r matches Ok((n, g, p)) ==> pos < p <= cs@.len() && ident_ok(n@) && forall|i: int|
            0 <= i < g@.len() ==> ident_ok(#[trigger] g@[i]@),
        match pheader(cs@, pos as int) {
            Ok((name, gs, q)) => r matches Ok((n, g, p)) && p == q && n@ == name && names_are(g@, gs),
            Err(e) => r matches Err(er) && er is ParseError && er->ParseError_0 == e,
        },
{
    let q = skip_trivia(cs, pos)?;
    let (name, q) = match read_ident(cs, q) {
        Some(x) => x,
        None => {
            return Err(Error::ParseError(q));
        },
    };
    let q = skip_trivia(cs, q)?;
    let (generics, q) = parse_generics(cs, q)?;
    let q = skip_trivia(cs, q)?;
    if !at(cs, q, '{') {
        return Err(Error::ParseError(q));
    }
    Ok((name, generics, q + 1))
}

/// Parses `Name<generics> { field: Type ... }` after the keyword `struct`.
fn parse_struct(cs: &Vec<char>, pos: usize) -> (r: Result<(ParsedStruct, usize), Error>)
    requires
        pos <= cs@.len(),
    ensures
        r matches Err(e) ==> e is ParseError && e->ParseError_0 <= cs@.len(),
        r matches Ok((s, p)) ==> pos < p <= cs@.len() && struct_ok(s),
        match pstruct(cs@, pos as int) {
            Ok((syn, q)) => r matches Ok((s, p)) && p == q && root_denotes(ASTRootType::Struct(s), syn),
            Err(e) => r matches Err(er) && er is ParseError && er->ParseError_0 == e,
        },
{
    let (name, generics, q) = parse_header(cs, pos)?;
    let mut p = q;
    let mut fields: Vec<(String, SmithType<String>)> = Vec::new();
    let ghost mut acc: Seq<(Seq<char>, TypeSyntax)> = Seq::empty();
    let ghost hdr = pheader(cs@, pos as int)->Ok_0;
    loop
        invariant
            pos < p <= cs@.len(),
            ident_ok(name@),
            forall|i: int| 0 <= i < generics@.len() ==> ident_ok(#[trigger] generics@[i]@),
            forall|i: int|
                0 <= i < fields@.len() ==> ident_ok((#[trigger] fields@[i]).0@) && type_names_ok(
                    fields@[i].1,
                ),
            pheader(cs@, pos as int) == Ok::<(Seq<char>, Seq<Seq<char>>, int), int>(hdr),
            hdr.0 == name@,
            names_are(generics@, hdr.1),
            fields_denote(fields@, acc),
            pfields(cs@, hdr.2, Seq::empty()) == pfields(cs@, p as int, acc),
        decreases cs@.len() - p,
    {
        let q = skip_trivia(cs, p)?;
        if at(cs, q, '}') {
            let s = ParsedStruct { name, generics, fields };
            return Ok((s, q + 1));
        }
        let (fname, q2) = match read_ident(cs, q) {
            Some(x) => x,
            None => {
                return Err(Error::ParseError(q));
            },
        };
        let q3 = skip_trivia(cs, q2)?;
        if !at(cs, q3, ':') {
            return Err(Error::ParseError(q3));
        }
        let q4 = skip_trivia(cs, q3 + 1)?;
        let (t, q5) = parse_typ(cs, q4, MAX_TYPE_DEPTH)?;
        let ghost syn_t = ptyp(cs@, q4 as int, MAX_TYPE_DEPTH as nat)->Ok_0.0;
        let ghost entry = (fname@, syn_t);
        let ghost old_fields = fields@;
        fields.push((fname, t));
        proof {
            let nacc = acc.push(entry);
            assert forall|i: int| 0 <= i < fields@.len() implies (#[trigger] fields@[i]).0@ == nacc[i].0 && denotes(fields@[i].1, nacc[i].1) by {
                if i < old_fields.len() {
                    assert(fields@[i] == old_fields[i]);
                }
            }
            acc = nacc;
        }
        let q6 = skip_trivia(cs, q5)?;
        p = if at(cs, q6, ',') {
            q6 + 1
        } else {
            q6
        };
    }
}

/// Parses `Name<generics> { Variant Variant(Type) ... }` after the keyword `enum`.
fn parse_enum(cs: &Vec<char>, pos: usize) -> (r: Result<(ParsedEnum, usize), Error>)
    requires
        pos <= cs@.len(),
    ensures
        r matches Err(e) ==> e is ParseError && e->ParseError_0 <= cs@.len(),
        r matches Ok((e, p)) ==> pos < p <= cs@.len() && enum_ok(e),
        match penum(cs@, pos as int) {
            Ok((syn, q)) => r matches Ok((e, p)) && p == q && root_denotes(ASTRootType::Enum(e), syn),
            Err(e) => r matches Err(er) && er is ParseError && er->ParseError_0 == e,
        },
{
    let (name, generics, q) = parse_header(cs, pos)?;
    let mut p = q;
    let mut variants: Vec<(String, Option<SmithType<String>>)> = Vec::new();
    let ghost mut acc: Seq<(Seq<char>, Option<TypeSyntax>)> = Seq::empty();
    let ghost hdr = pheader(cs@, pos as int)->Ok_0;
    loop
        invariant
            pos < p <= cs@.len(),
            ident_ok(name@),
            forall|i: int| 0 <= i < generics@.len() ==> ident_ok(#[trigger] generics@[i]@),
            forall|i: int|
                0 <= i < variants@.len() ==> ident_ok((#[trigger] variants@[i]).0@) && match variants@[i].1 {
                    Some(t) => type_names_ok(t),
                    None => true,
                },
            pheader(cs@, pos as int) == Ok::<(Seq<char>, Seq<Seq<char>>, int), int>(hdr),
            hdr.0 == name@,
            names_are(generics@, hdr.1),
            variants_denote(variants@, acc),
            pvariants(cs@, hdr.2, Seq::empty()) == pvariants(cs@, p as int, acc),
        decreases cs@.len() - p,
    {
        let q = skip_trivia(cs, p)?;
        if at(cs, q, '}') {
            let e = ParsedEnum { name, generics, variants };
            return Ok((e, q + 1));
        }
        let (vname, q2) = match read_ident(cs, q) {
            Some(x) => x,
            None => {
                return Err(Error::ParseError(q));
            },
        };
        let q3 = skip_trivia(cs, q2)?;
        let mut after = q3;
        let ghost mut syn_p: Option<TypeSyntax> = None;
        let payload = if at(cs, q3, '(') {
            let q4 = skip_trivia(cs, q3 + 1)?;
            let (t, q5) = parse_typ(cs, q4, MAX_TYPE_DEPTH)?;
            let q6 = skip_trivia(cs, q5)?;
            if !at(cs, q6, ')') {
                return Err(Error::ParseError(q6));
            }
            after = q6 + 1;
            proof {
                syn_p = Some(ptyp(cs@, q4 as int, MAX_TYPE_DEPTH as nat)->Ok_0.0);
            }
            Some(t)
        } else {
            None
        };
        assert(ppayload(cs@, q3 as int) == Ok::<(Option<TypeSyntax>, int), int>((syn_p, after as int)));
        let ghost entry = (vname@, syn_p);
        let ghost old_vs = variants@;
        variants.push((vname, payload));
        proof {
            let nacc = acc.push(entry);
            assert forall|i: int| 0 <= i < variants@.len() implies (#[trigger] variants@[i]).0@ == nacc[i].0 && match (variants@[i].1, nacc[i].1) {
                (Some(t), Some(x)) => denotes(t, x),
                (None, None) => true,
                _ => false,
            } by {
                if i < old_vs.len() {
                    assert(variants@[i] == old_vs[i]);
                }
            }
            acc = nacc;
        }
        let q7 = skip_trivia(cs, after)?;
        p = if at(cs, q7, ',') {
            q7 + 1
        } else {
            q7
        };
    }
}

/// The declarations from `p` on, after those in `acc`.
pub open spec fn pdoc(cs: Seq<char>, p: int, acc: Seq<RootSyntax>) -> Result<Seq<RootSyntax>, int>
    decreases cs.len() - p + 1,
{
    if p < 0 || p > cs.len() {
        Err(p)
    } else {
        match trivia(cs, p) {
            Err(e) => Err(e),
            Ok(q) => if q >= cs.len() {
                Ok(acc)
            } else if !(0 <= q < cs.len() && is_letter(cs[q])) {
                Err(q)
            } else {
                let q2 = ident_end(cs, q + 1);
                let w = cs.subrange(q, q2);
                let d = if w == "struct"@ {
                    pstruct(cs, q2)
                } else if w == "enum"@ {
                    penum(cs, q2)
                } else {
                    Err(q)
                };
                match d {
                    Err(e) => Err(e),
                    Ok((decl, q3)) => if q3 > p && q3 <= cs.len() {
                        pdoc(cs, q3, acc.push(decl))
                    } else {
                        Err(q3)
                    },
                }
            },
        }
    }
}

/// The declarations that schema text `src` writes, in source order, or the
/// position of the first place where it leaves the grammar.
pub open spec fn schema(src: Seq<char>) -> Result<Seq<RootSyntax>, int> {
    pdoc(src, 0, Seq::empty())
}

/// Parses a schema into its declarations, or reports the position where the
/// text stops following the grammar.
pub fn parse(src: &str) -> (r: Result<AST, Error>)
    ensures
        r matches Ok(ast) ==> forall|i: int| 0 <= i < ast.0@.len() ==> root_ok(#[trigger] ast.0@[i]),
        r matches Err(e) ==> e is ParseError && e->ParseError_0 <= src@.len(),
        match schema(src@) {
            Ok(roots) => r matches Ok(ast) && ast.0@.len() == roots.len() && forall|i: int|
                0 <= i < roots.len() ==> root_denotes(#[trigger] ast.0@[i], roots[i]),
            Err(e) => r matches Err(er) && er is ParseError && er->ParseError_0 == e,
        },
{
    let cs = chars_of(src);
    let mut ast = AST::new();
    let mut p: usize = 0;
    let ghost mut acc: Seq<RootSyntax> = Seq::empty();
    loop
        invariant
            p <= cs@.len(),
            cs@ == src@,
            forall|i: int| 0 <= i < ast.0@.len() ==> root_ok(#[trigger] ast.0@[i]),
            ast.0@.len() == acc.len(),
            forall|i: int| 0 <= i < acc.len() ==> root_denotes(#[trigger] ast.0@[i], acc[i]),
            schema(src@) == pdoc(cs@, p as int, acc),
        decreases cs@.len() - p,
    {
        let q = skip_trivia(&cs, p)?;
        if q >= cs.len() {
            return Ok(ast);
        }
        let (word, q2) = match read_ident(&cs, q) {
            Some(x) => x,
            None => {
                return Err(Error::ParseError(q));
            },
        };
        let ghost old_ast = ast.0@;
        if text_is(&word, "struct") {
            let (s, q3) = parse_struct(&cs, q2)?;
            let ghost decl = pstruct(cs@, q2 as int)->Ok_0.0;
            ast.0.push(ASTRootType::Struct(s));
            proof {
                let nacc = acc.push(decl);
                assert forall|i: int| 0 <= i < nacc.len() implies root_denotes(#[trigger] ast.0@[i], nacc[i]) by {
                    if i < old_ast.len() {
                        assert(ast.0@[i] == old_ast[i]);
                    }
                }
                acc = nacc;
            }
            p = q3;
        } else if text_is(&word, "enum") {
            let (e, q3) = parse_enum(&cs, q2)?;
            let ghost decl = penum(cs@, q2 as int)->Ok_0.0;
            ast.0.push(ASTRootType::Enum(e));
            proof {
                let nacc = acc.push(decl);
                assert forall|i: int| 0 <= i < nacc.len() implies root_denotes(#[trigger] ast.0@[i], nacc[i]) by {
                    if i < old_ast.len() {
                        assert(ast.0@[i] == old_ast[i]);
                    }
                }
                acc = nacc;
            }
            p = q3;
        } else {
            return Err(Error::ParseError(q));
        }
    }
}

} // verus!
