use vstd::prelude::*;

use crate::error::{error_at, Error, ErrorKind};
use crate::lexer::{advance, expect, lemma_scan_progress, scan, LexState, Lexer, TokenType};
use crate::text::{chars_of, same_chars};

verus! {

/// The electrical kind of a pin.
#[derive(Debug, Clone, Copy, PartialEq, Eq, Structural, Default)]
pub enum PinKind {
    #[default]
    Logic,
    Analog,
    Clock,
}

/// The pin kind that a type name stands for.
pub open spec fn pin_kind_of(name: Seq<char>) -> Option<PinKind> {
    if name == seq!['l', 'o', 'g', 'i', 'c'] {
        Some(PinKind::Logic)
    } else if name == seq!['a', 'n', 'a', 'l', 'o', 'g'] {
        Some(PinKind::Analog)
    } else if name == seq!['c', 'l', 'o', 'c', 'k'] {
        Some(PinKind::Clock)
    } else {
        None
    }
}

impl PinKind {
    /// The pin kind named `value`: `logic`, `analog` or `clock`.
    pub fn from_name(value: &String) -> (r: Option<PinKind>)
        ensures
            r == pin_kind_of(value@),
    {
        let name = chars_of(value.as_str());
        let logic: [char; 5] = ['l', 'o', 'g', 'i', 'c'];
        let analog: [char; 6] = ['a', 'n', 'a', 'l', 'o', 'g'];
        let clock: [char; 5] = ['c', 'l', 'o', 'c', 'k'];
        proof {
            assert(logic@ =~= seq!['l', 'o', 'g', 'i', 'c']);
            assert(analog@ =~= seq!['a', 'n', 'a', 'l', 'o', 'g']);
            assert(clock@ =~= seq!['c', 'l', 'o', 'c', 'k']);
        }
        if same_chars(name.as_slice(), &logic) {
            Some(PinKind::Logic)
        } else if same_chars(name.as_slice(), &analog) {
            Some(PinKind::Analog)
        } else if same_chars(name.as_slice(), &clock) {
            Some(PinKind::Clock)
        } else {
            None
        }
    }
}

/// A statement of a package body. The body grammar is not defined yet, so no
/// operator is ever built.
#[derive(Debug, Clone, Default)]
pub struct Operator {}

#[derive(Debug, Clone)]
pub struct Pin {
    ident: String,
    kind: PinKind,
}

/// The abstract value of a pin.
pub struct PinView {
    pub ident: Seq<char>,
    pub kind: PinKind,
}

impl View for Pin {
    type V = PinView;

    closed spec fn view(&self) -> PinView {
        PinView { ident: self.ident@, kind: self.kind }
    }
}

#[derive(Debug, Clone)]
pub struct Package {
    name: String,
    inputs: Vec<Pin>,
    outputs: Vec<Pin>,
    body: Vec<Operator>,
}

/// The abstract value of a package.
pub struct PackageView {
    pub name: Seq<char>,
    pub inputs: Seq<PinView>,
    pub outputs: Seq<PinView>,
    pub body_len: nat,
}

pub open spec fn pins_view(pins: Seq<Pin>) -> Seq<PinView> {
    pins.map_values(|p: Pin| p@)
}

impl View for Package {
    type V = PackageView;

    closed spec fn view(&self) -> PackageView {
        PackageView {
            name: self.name@,
            inputs: pins_view(self.inputs@),
            outputs: pins_view(self.outputs@),
            body_len: self.body@.len(),
        }
    }
}

/// The packages of one source text, in declaration order.
#[derive(Debug, Clone)]
pub struct PackageFile {
    pakages: Vec<Package>,
}

pub open spec fn packages_view(ps: Seq<Package>) -> Seq<PackageView> {
    ps.map_values(|p: Package| p@)
}

impl View for PackageFile {
    type V = Seq<PackageView>;

    closed spec fn view(&self) -> Seq<PackageView> {
        packages_view(self.pakages@)
    }
}

// ---------------------------------------------------------------------------
// The grammar
// ---------------------------------------------------------------------------

/// Pin declarations and commas up to the closing parenthesis, which stays
/// current; `ins` and `outs` are the pins read so far.
pub open spec fn parse_pins(
    s: Seq<char>,
    st: LexState,
    ins: Seq<PinView>,
    outs: Seq<PinView>,
) -> Result<(Seq<PinView>, Seq<PinView>, LexState), (ErrorKind, int)>
    decreases s.len() - st.pos, if st.tok == TokenType::Empty { 0int } else { 1int },
    via parse_pins_decreases
{
    if st.tok == TokenType::CParen {
        Ok((ins, outs, st))
    } else if st.tok == TokenType::In || st.tok == TokenType::Out {
        match advance(s, st) {
            Err(f) => Err(f),
            Ok(st1) => match expect(s, st1, TokenType::Ident) {
                Err(f) => Err(f),
                Ok(st2) => match expect(s, st2, TokenType::Colon) {
                    Err(f) => Err(f),
                    Ok(st3) => match pin_kind_of(st3.lit) {
                        None => Err((ErrorKind::InvalidPinType, st3.pos)),
                        Some(k) => match expect(s, st3, TokenType::Ident) {
                            Err(f) => Err(f),
                            Ok(st4) => {
                                let pin = PinView { ident: st1.lit, kind: k };
                                if st.tok == TokenType::In {
                                    parse_pins(s, st4, ins.push(pin), outs)
                                } else {
                                    parse_pins(s, st4, ins, outs.push(pin))
                                }
                            },
                        },
                    },
                },
            },
        }
    } else if st.tok == TokenType::Comma {
        match advance(s, st) {
            Err(f) => Err(f),
            Ok(st1) => parse_pins(s, st1, ins, outs),
        }
    } else {
        Err((ErrorKind::UnexpectedToken { expected: TokenType::CParen, found: st.tok }, st.pos))
    }
}

#[via_fn]
proof fn parse_pins_decreases(
    s: Seq<char>,
    st: LexState,
    ins: Seq<PinView>,
    outs: Seq<PinView>,
) {
    lemma_scan_progress(s, st.pos);
    if let Ok(st1) = advance(s, st) {
        lemma_scan_progress(s, st1.pos);
        if let Ok(st2) = expect(s, st1, TokenType::Ident) {
            lemma_scan_progress(s, st2.pos);
            if let Ok(st3) = expect(s, st2, TokenType::Colon) {
                lemma_scan_progress(s, st3.pos);
            }
        }
    }
}

/// `package Name ( pins )`.
pub open spec fn parse_package_spec(s: Seq<char>, st: LexState) -> Result<
    (PackageView, LexState),
    (ErrorKind, int),
> {
    match expect(s, st, TokenType::Package) {
        Err(f) => Err(f),
        Ok(st1) => match expect(s, st1, TokenType::Ident) {
            Err(f) => Err(f),
            Ok(st2) => match expect(s, st2, TokenType::OParen) {
                Err(f) => Err(f),
                Ok(st3) => match parse_pins(s, st3, Seq::empty(), Seq::empty()) {
                    Err(f) => Err(f),
                    Ok((ins, outs, st4)) => match expect(s, st4, TokenType::CParen) {
                        Err(f) => Err(f),
                        Ok(st5) => Ok(
                            (
                                PackageView { name: st1.lit, inputs: ins, outputs: outs, body_len: 0 },
                                st5,
                            ),
                        ),
                    },
                },
            },
        },
    }
}

/// Packages up to the end of the input; `acc` holds those read so far.
pub open spec fn parse_packages(s: Seq<char>, st: LexState, acc: Seq<PackageView>) -> Result<
    Seq<PackageView>,
    (ErrorKind, int),
>
    decreases s.len() - st.pos, if st.tok == TokenType::Empty { 0int } else { 1int },
    via parse_packages_decreases
{
    if st.tok == TokenType::Empty {
        Ok(acc)
    } else if st.tok == TokenType::Package {
        match parse_package_spec(s, st) {
            Err(f) => Err(f),
            Ok((p, st1)) => parse_packages(s, st1, acc.push(p)),
        }
    } else {
        Err((ErrorKind::MalformedPackageFile, st.pos))
    }
}

#[via_fn]
proof fn parse_packages_decreases(s: Seq<char>, st: LexState, acc: Seq<PackageView>) {
    if st.tok == TokenType::Package {
        lemma_package_progress(s, st);
    }
}

/// The packages of `s`, scanned from offset `i` on.
pub open spec fn parse_file(s: Seq<char>, i: int) -> Result<Seq<PackageView>, (ErrorKind, int)> {
    match scan(s, i) {
        Ok((t, lit, e)) => parse_packages(s, LexState { tok: t, lit, pos: e }, Seq::empty()),
        Err(f) => Err(f),
    }
}

proof fn lemma_advance_progress(s: Seq<char>, st: LexState)
    requires
        0 <= st.pos <= s.len(),
    ensures
        advance(s, st) matches Ok(st1) ==> {
            &&& st.pos <= st1.pos <= s.len()
            &&& st1.tok != TokenType::Empty ==> st.pos < st1.pos
        },
{
    lemma_scan_progress(s, st.pos);
}

proof fn lemma_pins_progress(s: Seq<char>, st: LexState, ins: Seq<PinView>, outs: Seq<PinView>)
    requires
        0 <= st.pos <= s.len(),
    ensures
        parse_pins(s, st, ins, outs) matches Ok((_, _, st1)) ==> st.pos <= st1.pos <= s.len(),
    decreases s.len() - st.pos, if st.tok == TokenType::Empty { 0int } else { 1int },
{
    if st.tok == TokenType::In || st.tok == TokenType::Out {
        lemma_advance_progress(s, st);
        if let Ok(st1) = advance(s, st) {
            lemma_advance_progress(s, st1);
            if let Ok(st2) = expect(s, st1, TokenType::Ident) {
                lemma_advance_progress(s, st2);
                if let Ok(st3) = expect(s, st2, TokenType::Colon) {
                    lemma_advance_progress(s, st3);
                    if let Some(k) = pin_kind_of(st3.lit) {
                        if let Ok(st4) = expect(s, st3, TokenType::Ident) {
                            let pin = PinView { ident: st1.lit, kind: k };
                            lemma_pins_progress(s, st4, ins.push(pin), outs);
                            lemma_pins_progress(s, st4, ins, outs.push(pin));
                        }
                    }
                }
            }
        }
    } else if st.tok == TokenType::Comma {
        lemma_advance_progress(s, st);
        if let Ok(st1) = advance(s, st) {
            lemma_pins_progress(s, st1, ins, outs);
        }
    }
}

proof fn lemma_package_progress(s: Seq<char>, st: LexState)
    ensures
        parse_package_spec(s, st) matches Ok((_, st1)) ==> 0 <= st.pos < st1.pos <= s.len(),
{
    lemma_scan_progress(s, st.pos);
    if let Ok(st1) = expect(s, st, TokenType::Package) {
        if let Ok(st2) = expect(s, st1, TokenType::Ident) {
            lemma_scan_progress(s, st1.pos);
            lemma_advance_progress(s, st2);
            if let Ok(st3) = expect(s, st2, TokenType::OParen) {
                lemma_pins_progress(s, st3, Seq::empty(), Seq::empty());
                if let Ok((_, _, st4)) = parse_pins(s, st3, Seq::empty(), Seq::empty()) {
                    lemma_advance_progress(s, st4);
                }
            }
        }
    }
}

// ---------------------------------------------------------------------------
// The parser
// ---------------------------------------------------------------------------

/// Parses one package; its `package` keyword is the current token.
fn parse_package(lexer: &mut Lexer) -> (r: Result<Package, Error>)
    requires
        old(lexer).wf(),
    ensures
        final(lexer).wf(),
        final(lexer).text() == old(lexer).text(),
        match parse_package_spec(old(lexer).text(), old(lexer).state()) {
            Ok((p, st)) => r is Ok && r->Ok_0@ == p && final(lexer).state() == st,
            Err(f) => r is Err && error_at(r->Err_0, old(lexer).text(), f),
        },
{
    let ghost s = lexer.text();
    let ghost st0 = lexer.state();
    if let Err(e) = lexer.match_token(TokenType::Package) {
        return Err(e);
    }
    let ghost st1 = lexer.state();
    let pkg_name = lexer.current_literal();
    if let Err(e) = lexer.match_token(TokenType::Ident) {
        return Err(e);
    }
    let ghost st2 = lexer.state();
    if let Err(e) = lexer.match_token(TokenType::OParen) {
        return Err(e);
    }
    let ghost st3 = lexer.state();
    let mut inputs = Vec::<Pin>::new();
    let mut outputs = Vec::<Pin>::new();
    assert(pins_view(inputs@) =~= Seq::empty());
    assert(pins_view(outputs@) =~= Seq::empty());
    loop
        invariant
            lexer.wf(),
            lexer.text() == s,
            s == old(lexer).text(),
            st0 == old(lexer).state(),
            expect(s, st0, TokenType::Package) == Ok::<LexState, (ErrorKind, int)>(st1),
            expect(s, st1, TokenType::Ident) == Ok::<LexState, (ErrorKind, int)>(st2),
            expect(s, st2, TokenType::OParen) == Ok::<LexState, (ErrorKind, int)>(st3),
            st1.lit == pkg_name@,
            parse_pins(s, lexer.state(), pins_view(inputs@), pins_view(outputs@)) == parse_pins(
                s,
                st3,
                Seq::empty(),
                Seq::empty(),
            ),
        ensures
            lexer.state().tok == TokenType::CParen,
        decreases s.len() - lexer.pos(), if lexer.state().tok == TokenType::Empty { 0int } else { 1int },
    {
        proof {
            lexer.lemma_pos_in_text();
            lemma_scan_progress(s, lexer.pos());
        }
        let ghost st = lexer.state();
        let tt = lexer.current_type();
        match tt {
            TokenType::CParen => break,
            TokenType::In | TokenType::Out => {
                if let Err(e) = lexer.next_token() {
                    return Err(e);
                }
                let ghost sa = lexer.state();
                proof {
                    lemma_scan_progress(s, sa.pos);
                }
                let ident = lexer.current_literal();
                if let Err(e) = lexer.match_token(TokenType::Ident) {
                    return Err(e);
                }
                proof {
                    lexer.lemma_pos_in_text();
                    lemma_scan_progress(s, lexer.pos());
                }
                if let Err(e) = lexer.match_token(TokenType::Colon) {
                    return Err(e);
                }
                proof {
                    lexer.lemma_pos_in_text();
                    lemma_scan_progress(s, lexer.pos());
                }
                let pin_type = lexer.current_literal();
                let kind = match PinKind::from_name(&pin_type) {
                    Some(k) => k,
                    None => {
                        return Err(lexer.error(ErrorKind::InvalidPinType));
                    },
                };
                if let Err(e) = lexer.match_token(TokenType::Ident) {
                    return Err(e);
                }
                let pin = Pin { ident, kind };
                assert(pin@ == PinView { ident: sa.lit, kind });
                let ghost pv = pin@;
                if tt == TokenType::In {
                    let ghost prev = inputs@;
                    inputs.push(pin);
                    assert(pins_view(inputs@) =~= pins_view(prev).push(pv));
                } else {
                    let ghost prev = outputs@;
                    outputs.push(pin);
                    assert(pins_view(outputs@) =~= pins_view(prev).push(pv));
                }
            },
            TokenType::Comma => {
                if let Err(e) = lexer.match_token(TokenType::Comma) {
                    return Err(e);
                }
            },
            _ => {
                return Err(
                    lexer.error(ErrorKind::UnexpectedToken { expected: TokenType::CParen, found: tt }),
                );
            },
        }
    }
    if let Err(e) = lexer.match_token(TokenType::CParen) {
        return Err(e);
    }
    Ok(Package { name: pkg_name, inputs, outputs, body: Vec::new() })
}

/// Parses every package of the lexer's text from its cursor on; the first token
/// is scanned here.
pub fn parse_package_file(lexer: &mut Lexer) -> (r: Result<PackageFile, Error>)
    requires
        old(lexer).wf(),
    ensures
        final(lexer).wf(),
        final(lexer).text() == old(lexer).text(),
        match parse_file(old(lexer).text(), old(lexer).pos()) {
            Ok(ps) => r is Ok && r->Ok_0@ == ps,
            Err(f) => r is Err && error_at(r->Err_0, old(lexer).text(), f),
        },
{
    let ghost s = lexer.text();
    if let Err(e) = lexer.next_token() {
        return Err(e);
    }
    let mut pakages = Vec::<Package>::new();
    assert(packages_view(pakages@) =~= Seq::empty());
    loop
        invariant
            lexer.wf(),
            lexer.text() == s,
            s == old(lexer).text(),
            parse_packages(s, lexer.state(), packages_view(pakages@)) == parse_file(
                s,
                old(lexer).pos(),
            ),
        ensures
            lexer.state().tok == TokenType::Empty,
        decreases s.len() - lexer.pos(), if lexer.state().tok == TokenType::Empty { 0int } else { 1int },
    {
        proof {
            lexer.lemma_pos_in_text();
            lemma_package_progress(s, lexer.state());
        }
        match lexer.current_type() {
            TokenType::Empty => {
                break;
            },
            TokenType::Package => {
                match parse_package(lexer) {
                    Ok(p) => {
                        let ghost prev = pakages@;
                        pakages.push(p);
                        assert(packages_view(pakages@) =~= packages_view(prev).push(p@));
                    },
                    Err(e) => {
                        return Err(e);
                    },
                }
            },
            _ => {
                return Err(lexer.error(ErrorKind::MalformedPackageFile));
            },
        }
    }
    Ok(PackageFile { pakages })
}

/// Parses a whole source text.
pub fn parse(source: String) -> (r: Result<PackageFile, Error>)
    ensures
        match parse_file(source@, 0) {
            Ok(ps) => r is Ok && r->Ok_0@ == ps,
            Err(f) => r is Err && error_at(r->Err_0, source@, f),
        },
{
    let mut lexer = Lexer::new(source);
    parse_package_file(&mut lexer)
}

// ---------------------------------------------------------------------------
// Access
// ---------------------------------------------------------------------------

impl Pin {
    pub fn ident(&self) -> (r: &String)
        ensures
            r@ == self@.ident,
    {
        &self.ident
    }

    pub fn kind(&self) -> (r: PinKind)
        ensures
            r == self@.kind,
    {
        self.kind
    }
}

impl Package {
    pub fn name(&self) -> (r: &String)
        ensures
            r@ == self@.name,
    {
        &self.name
    }

    pub fn inputs(&self) -> (r: &Vec<Pin>)
        ensures
            pins_view(r@) == self@.inputs,
    {
        &self.inputs
    }

    pub fn outputs(&self) -> (r: &Vec<Pin>)
        ensures
            pins_view(r@) == self@.outputs,
    {
        &self.outputs
    }

    pub fn body(&self) -> (r: &Vec<Operator>)
        ensures
            r@.len() == self@.body_len,
    {
        &self.body
    }
}

impl PackageFile {
    pub fn packages(&self) -> (r: &Vec<Package>)
        ensures
            packages_view(r@) == self@,
    {
        &self.pakages
    }
}

// ---------------------------------------------------------------------------
// Laws
// ---------------------------------------------------------------------------

/// Packages come out in the order of their declarations: those already read
/// stay first and in order, and each later one is appended after them.
pub proof fn lemma_packages_keep_order(s: Seq<char>, st: LexState, acc: Seq<PackageView>)
    requires
        0 <= st.pos <= s.len(),
    ensures
        parse_packages(s, st, acc) matches Ok(ps) ==> ps.len() >= acc.len() && ps.subrange(
            0,
            acc.len() as int,
        ) == acc,
    decreases s.len() - st.pos, if st.tok == TokenType::Empty { 0int } else { 1int },
{
    if st.tok == TokenType::Empty {
        assert(acc.subrange(0, acc.len() as int) =~= acc);
    } else if st.tok == TokenType::Package {
        lemma_package_progress(s, st);
        if let Ok((p, st1)) = parse_package_spec(s, st) {
            lemma_packages_keep_order(s, st1, acc.push(p));
            if let Ok(ps) = parse_packages(s, st1, acc.push(p)) {
                assert(ps.subrange(0, acc.len() as int) =~= acc.push(p).subrange(
                    0,
                    acc.len() as int,
                ));
                assert(acc.push(p).subrange(0, acc.len() as int) =~= acc);
            }
        }
    }
}

} // verus!
