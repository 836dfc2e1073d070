//! The recursive-descent parser. Every method computes the function of the
//! same construct in [`crate::ast::grammar`].
use crate::ast::grammar;
use crate::ast::grammar::{Level, Parsed, ParserErrorView};
use crate::ast::symbols;
use crate::ast::symbols::{
    all_bound, bound, clause_bound, extends, lemma_all_bound_stable, lemma_bound_stable,
    lemma_clause_bound_stable, lemma_extends_itself, lemma_extends_transitive, lemma_lookup,
    lemma_resolve, LOCAL_VAR_OFFSET,
};
use crate::ast::node::{
    all_proper, clause_proper, clause_view, is_expression, lemma_block_view, node_views, proper,
    BinOp, LocalVar, Node, NodeView, Nodes,
};
use crate::lexer::{token_views, Token, TokenStream, TokenView};
use vstd::prelude::*;

verus! {

/// Why a token sequence is no program.
#[derive(Debug, PartialEq)]
pub enum ParserError {
    /// The token `actual` stands where one of `expected` had to.
    UnexpectedToken { expected: Vec<Token>, actual: Vec<Token> },
    UnexpectedEOF,
    /// The tokens ended where one more was needed.
    NotEnoughTokens,
}

impl View for ParserError {
    type V = ParserErrorView;

    open spec fn view(&self) -> ParserErrorView {
        match self {
            ParserError::UnexpectedToken { expected, actual } => ParserErrorView::UnexpectedToken {
                expected: token_views(expected@),
                actual: token_views(actual@),
            },
            ParserError::UnexpectedEOF => ParserErrorView::UnexpectedEOF,
            ParserError::NotEnoughTokens => ParserErrorView::NotEnoughTokens,
        }
    }
}

/// The most tokens that a parser takes: each may name a new variable, and
/// the offset of the last variable has to fit in `usize`.
pub const MAX_TOKENS: usize = usize::MAX / LOCAL_VAR_OFFSET - 1;

/// The names of the variables of a symbol table, in the order of the table.
pub open spec fn local_names(locals: Seq<LocalVar>) -> Seq<Seq<char>> {
    Seq::new(locals.len(), |i: int| locals[i].ident@)
}

/// A well-formed symbol table: the variable at index `i` has the offset of
/// the `i`-th slot, and no name occurs twice.
pub open spec fn locals_wf(locals: Seq<LocalVar>) -> bool {
    &&& forall|i: int|
        0 <= i < locals.len() ==> (#[trigger] locals[i]).offset == symbols::slot_offset(i as nat)
    &&& local_names(locals).no_duplicates()
}

/// The value of what a parsing method returns for a tree.
pub open spec fn node_outcome(r: Result<Box<Node>, ParserError>) -> Result<
    NodeView,
    ParserErrorView,
> {
    match r {
        Ok(node) => Ok(node@),
        Err(e) => Err(e@),
    }
}

/// The value of what a parsing method returns for a clause that may be
/// absent.
pub open spec fn clause_outcome(r: Result<Option<Box<Node>>, ParserError>) -> Result<
    Option<Box<NodeView>>,
    ParserErrorView,
> {
    match r {
        Ok(Some(node)) => Ok(Some(Box::new(node@))),
        Ok(None) => Ok(None),
        Err(e) => Err(e@),
    }
}

/// The value of what a parsing method returns for a single token.
pub open spec fn unit_outcome(r: Result<(), ParserError>) -> Result<(), ParserErrorView> {
    match r {
        Ok(_) => Ok(()),
        Err(e) => Err(e@),
    }
}

/// The value of what the parser returns for a program.
pub open spec fn program_outcome(r: Result<Nodes, ParserError>) -> Result<
    Seq<NodeView>,
    ParserErrorView,
> {
    match r {
        Ok(nodes) => Ok(nodes@),
        Err(e) => Err(e@),
    }
}

/// A parser over a token sequence, with the symbol table of the variables
/// met so far.
pub struct Parser {
    tokens: TokenStream,
    locals: Vec<LocalVar>,
}

impl Parser {
    /// The invariant of the parser: its symbol table is well formed and no
    /// longer than the tokens read.
    pub closed spec fn wf(&self) -> bool {
        &&& locals_wf(self.locals@)
        &&& self.locals.len() <= self.tokens.position() <= self.tokens.tokens().len()
        &&& self.tokens.tokens().len() <= MAX_TOKENS
    }

    /// All the tokens, read or not.
    pub closed spec fn tokens(&self) -> Seq<TokenView> {
        self.tokens.tokens()
    }

    /// The index of the next token to be read.
    pub closed spec fn position(&self) -> nat {
        self.tokens.position()
    }

    /// The names of the variables met so far, in order of first appearance.
    pub closed spec fn names(&self) -> Seq<Seq<char>> {
        local_names(self.locals@)
    }

    /// No name is twice in the symbol table of a well-formed parser.
    pub proof fn lemma_names_distinct(&self)
        requires
            self.wf(),
        ensures
            self.names().no_duplicates(),
    {
    }

    /// Whether the parser, having been `before`, is where `step` says: at its
    /// index, with its names, over the same tokens. The parser never goes
    /// back, a step that recognises something reads a token, and the symbol
    /// table only grows at its end.
    pub open spec fn took<T>(&self, before: &Parser, step: Parsed<T>) -> bool {
        &&& self.wf()
        &&& self.tokens() == before.tokens()
        &&& self.position() == step.pos
        &&& self.names() == step.names
        &&& before.position() <= self.position() <= self.tokens().len()
        &&& step.result is Ok ==> before.position() < self.position()
        &&& extends(self.names(), before.names())
    }

    /// Whether the parser, having been `before`, is where `step` says and
    /// `r` is the tree or the error of `step`. Every variable in the tree has
    /// the slot of its name in the symbol table, and the tree has an
    /// expression wherever a value is needed.
    pub open spec fn gave(
        &self,
        before: &Parser,
        r: Result<Box<Node>, ParserError>,
        step: Parsed<NodeView>,
    ) -> bool {
        &&& self.took(before, step)
        &&& node_outcome(r) == step.result
        &&& r matches Ok(node) ==> bound(node@, self.names()) && proper(node@)
    }

    /// The same for a step that recognises an expression: the tree is no
    /// statement.
    pub open spec fn gave_value(
        &self,
        before: &Parser,
        r: Result<Box<Node>, ParserError>,
        step: Parsed<NodeView>,
    ) -> bool {
        &&& self.gave(before, r, step)
        &&& r matches Ok(node) ==> is_expression(node@)
    }

    /// A parser at the first of `tokens`, with no variable met.
    pub fn new(tokens: Vec<Token>) -> (p: Parser)
        requires
            tokens.len() <= MAX_TOKENS,
        ensures
            p.wf(),
            p.tokens() == token_views(tokens@),
            p.position() == 0,
            p.names() == Seq::<Seq<char>>::empty(),
    {
        let stream = TokenStream::new(tokens);
        let locals: Vec<LocalVar> = Vec::new();
        proof {
            assert(local_names(locals@) =~= Seq::<Seq<char>>::empty());
        }
        Parser { tokens: stream, locals }
    }

    /// What `parse` does: the parser, having been `before`, is where
    /// [`grammar::program`] says, `r` is its trees or its error, and in the
    /// trees every variable has the slot of its name.
    pub open spec fn parsed(&self, before: &Parser, r: Result<Nodes, ParserError>) -> bool {
        let step = grammar::program(before.tokens(), before.position(), before.names());
        &&& self.took(before, step)
        &&& program_outcome(r) == step.result
        &&& r matches Ok(nodes) ==> all_bound(nodes@, self.names()) && all_proper(nodes@)
    }

    /// Parses the rest of the tokens as a program.
    ///
    /// The outcome is that of [`grammar::program`]. In the trees of a
    /// program every variable has the slot of its name, so two uses of a name
    /// have the same offset and uses of two names have different ones.
    pub fn parse(&mut self) -> (r: Result<Nodes, ParserError>)
        requires
            old(self).wf(),
        ensures
            final(self).parsed(old(self), r),
    {
        self.program()
    }

    /// Parsing is a function of the tokens: two parsers over the same
    /// tokens, at the same index and with the same names, end at the same
    /// index with the same names, and give trees of the same value, variable
    /// for variable and offset for offset, or the same error.
    pub proof fn lemma_parse_deterministic(
        a: Parser,
        b: Parser,
        a_after: Parser,
        b_after: Parser,
        ra: Result<Nodes, ParserError>,
        rb: Result<Nodes, ParserError>,
    )
        requires
            a.tokens() == b.tokens(),
            a.position() == b.position(),
            a.names() == b.names(),
            a_after.parsed(&a, ra),
            b_after.parsed(&b, rb),
        ensures
            program_outcome(ra) == program_outcome(rb),
            a_after.position() == b_after.position(),
            a_after.names() == b_after.names(),
    {
    }

    /// The token at the cursor, which stays unread.
    fn peek(&self) -> (r: Result<&Token, ParserError>)
        requires
            self.wf(),
        ensures
            self.position() <= self.tokens().len() <= MAX_TOKENS,
            match r {
                Ok(t) => self.position() < self.tokens().len() && t@ == self.tokens()[
                    self.position() as int],
                Err(e) => self.position() >= self.tokens().len() && e@
                    == ParserErrorView::NotEnoughTokens,
            },
    {
        match self.tokens.peek() {
            Some(t) => Ok(t),
            None => Err(ParserError::NotEnoughTokens),
        }
    }

    /// Reads the token at the cursor.
    fn advance(&mut self)
        requires
            old(self).wf(),
            old(self).position() < old(self).tokens().len(),
        ensures
            final(self).wf(),
            final(self).tokens() == old(self).tokens(),
            final(self).names() == old(self).names(),
            final(self).position() == old(self).position() + 1,
            final(self).position() <= final(self).tokens().len(),
            extends(final(self).names(), old(self).names()),
    {
        proof {
            lemma_extends_itself(self.names());
        }
        let _ = self.tokens.next();
    }

    /// Whether the token at the cursor is `token`.
    fn next_is(&self, token: &Token) -> (r: bool)
        requires
            self.wf(),
        ensures
            r == grammar::next_is(self.tokens(), self.position(), token@),
            self.position() <= self.tokens().len(),
    {
        match self.tokens.peek() {
            Some(t) => *t == *token,
            None => false,
        }
    }

    /// Reads the token `token`, or fails and reads nothing.
    fn consume(&mut self, token: Token) -> (r: Result<(), ParserError>)
        requires
            old(self).wf(),
        ensures
            final(self).took(
                old(self),
                grammar::expect(old(self).tokens(), old(self).position(), old(self).names(), token@),
            ),
            unit_outcome(r) == grammar::expect(
                old(self).tokens(),
                old(self).position(),
                old(self).names(),
                token@,
            ).result,
    {
        proof {
            lemma_extends_itself(self.names());
        }
        let actual: Token = match self.peek() {
            Ok(t) => t.clone(),
            Err(e) => {
                return Err(e);
            },
        };
        if actual == token {
            self.advance();
            Ok(())
        } else {
            let expected: Vec<Token> = vec![token];
            let actual: Vec<Token> = vec![actual];
            proof {
                assert(token_views(expected@) =~= seq![token@]);
                assert(token_views(actual@) =~= seq![
                    old(self).tokens()[old(self).position() as int],
                ]);
            }
            Err(ParserError::UnexpectedToken { expected, actual })
        }
    }

    /// The variable of the name `ident`: the one met before under that name,
    /// or a new one in the next free slot.
    fn get_local_var(&mut self, ident: &String) -> (var: LocalVar)
        requires
            old(self).wf(),
            old(self).names().len() < old(self).position(),
        ensures
            final(self).wf(),
            final(self).tokens() == old(self).tokens(),
            final(self).position() == old(self).position(),
            final(self).names() == symbols::resolve(old(self).names(), ident@),
            Node::Lvar(var)@ == symbols::variable(old(self).names(), ident@),
            extends(final(self).names(), old(self).names()),
            bound(Node::Lvar(var)@, final(self).names()),
    {
        let ghost names = local_names(self.locals@);
        let mut i: usize = 0;
        proof {
            assert(names.skip(0) =~= names);
            lemma_resolve(names, ident@);
            lemma_lookup(symbols::resolve(names, ident@), ident@);
        }
        while i < self.locals.len()
            invariant
                self.wf(),
                i <= self.locals.len(),
                names == local_names(self.locals@),
                self.locals@ == old(self).locals@,
                self.tokens == old(self).tokens,
                locals_wf(self.locals@),
                symbols::lookup(names, ident@) == i + symbols::lookup(names.skip(i as int), ident@),
            decreases self.locals.len() - i,
        {
            if *self.locals[i].ident == *ident {
                let found = self.locals[i].clone();
                proof {
                    assert(names.skip(i as int).first() == names[i as int]);
                    lemma_resolve(names, ident@);
                    lemma_lookup(names, ident@);
                }
                return found;
            }
            proof {
                assert(names.skip(i as int).first() == names[i as int]);
                assert(names.skip(i as int).drop_first() =~= names.skip(i + 1));
            }
            i = i + 1;
        }
        proof {
            assert(names.skip(i as int) =~= Seq::<Seq<char>>::empty());
            assert(symbols::lookup(names, ident@) == names.len());
            lemma_lookup(names, ident@);
            assert(self.locals.len() < MAX_TOKENS);
        }
        let var = LocalVar {
            ident: Box::new(ident.clone()),
            offset: (self.locals.len() + 1) * LOCAL_VAR_OFFSET,
        };
        let copy = var.clone();
        proof {
            assert(local_names(self.locals@.push(var)) =~= names.push(ident@));
        }
        self.locals.push(var);
        copy
    }

    /// `program = statement*`
    fn program(&mut self) -> (r: Result<Nodes, ParserError>)
        requires
            old(self).wf(),
        ensures
            final(self).took(
                old(self),
                grammar::program(old(self).tokens(), old(self).position(), old(self).names()),
            ),
            program_outcome(r) == grammar::program(
                old(self).tokens(),
                old(self).position(),
                old(self).names(),
            ).result,
            r matches Ok(nodes) ==> all_bound(nodes@, final(self).names()) && all_proper(nodes@),
    {
        let ghost ts = self.tokens();
        let ghost goal = grammar::program(ts, self.position(), self.names());
        let mut nodes: Vec<Box<Node>> = Vec::new();
        proof {
            assert(node_views(nodes@) =~= Seq::<NodeView>::empty());
            lemma_extends_itself(self.names());
        }
        loop
            invariant
                self.wf(),
                self.tokens() == ts,
                ts == old(self).tokens(),
                old(self).position() <= self.position(),
                extends(self.names(), old(self).names()),
                all_bound(node_views(nodes@), self.names()),
                all_proper(node_views(nodes@)),
                goal == grammar::program(ts, old(self).position(), old(self).names()),
                goal == grammar::program_rest(
                    ts,
                    self.position(),
                    self.names(),
                    node_views(nodes@),
                ),
            decreases ts.len() - self.position(),
        {
            if self.next_is(&Token::EOF) {
                self.advance();
                return Ok(Nodes(nodes));
            }
            let ghost done = node_views(nodes@);
            let ghost names = self.names();
            match self.stmt() {
                Ok(node) => {
                    proof {
                        lemma_grown(done, node@, names, self.names());
                        lemma_extends_transitive(old(self).names(), names, self.names());
                        assert(node_views(nodes@.push(node)) =~= done.push(node@));
                    }
                    nodes.push(node);
                },
                Err(e) => {
                    proof {
                        lemma_extends_transitive(old(self).names(), names, self.names());
                    }
                    return Err(e);
                },
            }
        }
    }

    /// One statement.
    fn stmt(&mut self) -> (r: Result<Box<Node>, ParserError>)
        requires
            old(self).wf(),
        ensures
            final(self).gave(
                old(self),
                r,
                grammar::statement(old(self).tokens(), old(self).position(), old(self).names()),
            ),
        decreases old(self).tokens().len() - old(self).position(), 20nat,
    {
        match self.peek() {
            Ok(_) => {},
            Err(e) => {
                proof {
                    lemma_extends_itself(self.names());
                }
                return Err(e);
            },
        }
        if self.next_is(&Token::LeftBrace) {
            self.advance();
            self.block()
        } else if self.next_is(&Token::Return) {
            self.advance();
            self.return_rest()
        } else if self.next_is(&Token::If) {
            self.advance();
            self.if_rest()
        } else if self.next_is(&Token::While) {
            self.advance();
            self.while_rest()
        } else if self.next_is(&Token::For) {
            self.advance();
            self.for_rest()
        } else {
            self.terminated()
        }
    }

    /// An expression followed by a semicolon.
    fn terminated(&mut self) -> (r: Result<Box<Node>, ParserError>)
        requires
            old(self).wf(),
        ensures
            final(self).gave_value(
                old(self),
                r,
                grammar::terminated(old(self).tokens(), old(self).position(), old(self).names()),
            ),
        decreases old(self).tokens().len() - old(self).position(), 19nat,
    {
        let node = match self.expr() {
            Ok(n) => n,
            Err(e) => {
                return Err(e);
            },
        };
        match self.consume(Token::Semicolon) {
            Ok(_) => Ok(node),
            Err(e) => Err(e),
        }
    }

    /// What follows the word `return`.
    fn return_rest(&mut self) -> (r: Result<Box<Node>, ParserError>)
        requires
            old(self).wf(),
        ensures
            final(self).gave(
                old(self),
                r,
                grammar::return_rest(old(self).tokens(), old(self).position(), old(self).names()),
            ),
        decreases old(self).tokens().len() - old(self).position(), 21nat,
    {
        match self.terminated() {
            Ok(expr) => Ok(Box::new(Node::Return { expr })),
            Err(e) => Err(e),
        }
    }

    /// What follows the word `if`.
    fn if_rest(&mut self) -> (r: Result<Box<Node>, ParserError>)
        requires
            old(self).wf(),
        ensures
            final(self).gave(
                old(self),
                r,
                grammar::if_rest(old(self).tokens(), old(self).position(), old(self).names()),
            ),
        decreases old(self).tokens().len() - old(self).position(), 21nat,
    {
        let cond = match self.condition() {
            Ok(n) => n,
            Err(e) => {
                return Err(e);
            },
        };
        let ghost names1 = self.names();
        let then = match self.stmt() {
            Ok(n) => n,
            Err(e) => {
                proof {
                    lemma_extends_transitive(old(self).names(), names1, self.names());
                }
                return Err(e);
            },
        };
        proof {
            lemma_extends_transitive(old(self).names(), names1, self.names());
            lemma_bound_stable(cond@, names1, self.names());
        }
        let ghost names2 = self.names();
        let r = self.else_rest(cond, then);
        proof {
            lemma_extends_transitive(old(self).names(), names2, self.names());
        }
        r
    }

    /// What follows the first statement `then` of an `if` with the condition
    /// `cond`.
    fn else_rest(&mut self, cond: Box<Node>, then: Box<Node>) -> (r: Result<
        Box<Node>,
        ParserError,
    >)
        requires
            old(self).wf(),
            bound(cond@, old(self).names()),
            bound(then@, old(self).names()),
            proper(cond@),
            is_expression(cond@),
            proper(then@),
        ensures
            final(self).wf(),
            final(self).tokens() == old(self).tokens(),
            final(self).position() == grammar::else_rest(
                old(self).tokens(),
                old(self).position(),
                old(self).names(),
                cond@,
                then@,
            ).pos,
            final(self).names() == grammar::else_rest(
                old(self).tokens(),
                old(self).position(),
                old(self).names(),
                cond@,
                then@,
            ).names,
            old(self).position() <= final(self).position() <= final(self).tokens().len(),
            extends(final(self).names(), old(self).names()),
            node_outcome(r) == grammar::else_rest(
                old(self).tokens(),
                old(self).position(),
                old(self).names(),
                cond@,
                then@,
            ).result,
            r matches Ok(node) ==> bound(node@, final(self).names()) && proper(node@),
        decreases old(self).tokens().len() - old(self).position(), 21nat,
    {
        if self.next_is(&Token::Else) {
            let ghost names = self.names();
            self.advance();
            match self.stmt() {
                Ok(els) => {
                    proof {
                        lemma_bound_stable(cond@, names, self.names());
                        lemma_bound_stable(then@, names, self.names());
                        lemma_if_bound(cond@, then@, Some(Box::new(els@)), self.names());
                    }
                    Ok(make_if(cond, then, Some(els)))
                },
                Err(e) => Err(e),
            }
        } else {
            proof {
                lemma_extends_itself(self.names());
                lemma_if_bound(cond@, then@, None, self.names());
            }
            Ok(make_if(cond, then, None))
        }
    }

    /// What follows the word `while`.
    fn while_rest(&mut self) -> (r: Result<Box<Node>, ParserError>)
        requires
            old(self).wf(),
        ensures
            final(self).gave(
                old(self),
                r,
                grammar::while_rest(old(self).tokens(), old(self).position(), old(self).names()),
            ),
        decreases old(self).tokens().len() - old(self).position(), 21nat,
    {
        let cond = match self.condition() {
            Ok(n) => n,
            Err(e) => {
                return Err(e);
            },
        };
        let ghost names1 = self.names();
        match self.stmt() {
            Ok(then) => {
                proof {
                    lemma_extends_transitive(old(self).names(), names1, self.names());
                    lemma_bound_stable(cond@, names1, self.names());
                }
                Ok(Box::new(Node::While { cond, then }))
            },
            Err(e) => {
                proof {
                    lemma_extends_transitive(old(self).names(), names1, self.names());
                }
                Err(e)
            },
        }
    }

    /// The statements of a block up to the closing brace; the opening brace
    /// has been read.
    fn block(&mut self) -> (r: Result<Box<Node>, ParserError>)
        requires
            old(self).wf(),
        ensures
            final(self).gave(
                old(self),
                r,
                grammar::block_rest(
                    old(self).tokens(),
                    old(self).position(),
                    old(self).names(),
                    Seq::empty(),
                ),
            ),
        decreases old(self).tokens().len() - old(self).position(), 21nat,
    {
        let ghost ts = self.tokens();
        let ghost goal = grammar::block_rest(ts, self.position(), self.names(), Seq::empty());
        let mut stmts: Vec<Box<Node>> = Vec::new();
        proof {
            assert(node_views(stmts@) =~= Seq::<NodeView>::empty());
            lemma_extends_itself(self.names());
        }
        loop
            invariant
                self.wf(),
                self.tokens() == ts,
                ts == old(self).tokens(),
                old(self).position() <= self.position(),
                extends(self.names(), old(self).names()),
                all_bound(node_views(stmts@), self.names()),
                all_proper(node_views(stmts@)),
                goal == grammar::block_rest(
                    ts,
                    old(self).position(),
                    old(self).names(),
                    Seq::empty(),
                ),
                goal == grammar::block_rest(
                    ts,
                    self.position(),
                    self.names(),
                    node_views(stmts@),
                ),
            decreases ts.len() - self.position(),
        {
            if self.next_is(&Token::RightBrace) {
                self.advance();
                proof {
                    lemma_block_view(stmts);
                }
                return Ok(Box::new(Node::Block { stmts }));
            }
            let ghost done = node_views(stmts@);
            let ghost names = self.names();
            match self.stmt() {
                Ok(node) => {
                    proof {
                        lemma_grown(done, node@, names, self.names());
                        lemma_extends_transitive(old(self).names(), names, self.names());
                        assert(node_views(stmts@.push(node)) =~= done.push(node@));
                    }
                    stmts.push(node);
                },
                Err(e) => {
                    proof {
                        lemma_extends_transitive(old(self).names(), names, self.names());
                    }
                    return Err(e);
                },
            }
        }
    }

    /// An expression between `(` and `)`.
    fn condition(&mut self) -> (r: Result<Box<Node>, ParserError>)
        requires
            old(self).wf(),
        ensures
            final(self).gave_value(
                old(self),
                r,
                grammar::condition(old(self).tokens(), old(self).position(), old(self).names()),
            ),
        decreases old(self).tokens().len() - old(self).position(), 19nat,
    {
        match self.consume(Token::LeftParen) {
            Ok(_) => {},
            Err(e) => {
                return Err(e);
            },
        }
        let cond = match self.expr() {
            Ok(n) => n,
            Err(e) => {
                return Err(e);
            },
        };
        match self.consume(Token::RightParen) {
            Ok(_) => Ok(cond),
            Err(e) => Err(e),
        }
    }

    /// A clause of `for` that may be absent, with the delimiter `end` that
    /// closes it.
    fn clause(&mut self, end: Token) -> (r: Result<Option<Box<Node>>, ParserError>)
        requires
            old(self).wf(),
        ensures
            final(self).took(
                old(self),
                grammar::clause(
                    old(self).tokens(),
                    old(self).position(),
                    old(self).names(),
                    end@,
                ),
            ),
            clause_outcome(r) == grammar::clause(
                old(self).tokens(),
                old(self).position(),
                old(self).names(),
                end@,
            ).result,
            clause_outcome(r) matches Ok(clause) ==> clause_bound(clause, final(self).names())
                && clause_proper(clause) && (clause matches Some(c) ==> is_expression(*c)),
        decreases old(self).tokens().len() - old(self).position(), 19nat,
    {
        if self.next_is(&end) {
            self.advance();
            return Ok(None);
        }
        let node = match self.expr() {
            Ok(n) => n,
            Err(e) => {
                return Err(e);
            },
        };
        match self.consume(end) {
            Ok(_) => Ok(Some(node)),
            Err(e) => Err(e),
        }
    }

    /// What follows the word `for`.
    fn for_rest(&mut self) -> (r: Result<Box<Node>, ParserError>)
        requires
            old(self).wf(),
        ensures
            final(self).gave(
                old(self),
                r,
                grammar::for_rest(old(self).tokens(), old(self).position(), old(self).names()),
            ),
        decreases old(self).tokens().len() - old(self).position(), 21nat,
    {
        match self.consume(Token::LeftParen) {
            Ok(_) => {},
            Err(e) => {
                return Err(e);
            },
        }
        let init = match self.clause(Token::Semicolon) {
            Ok(n) => n,
            Err(e) => {
                return Err(e);
            },
        };
        let ghost names1 = self.names();
        let cond = match self.clause(Token::Semicolon) {
            Ok(n) => n,
            Err(e) => {
                proof {
                    lemma_extends_transitive(old(self).names(), names1, self.names());
                }
                return Err(e);
            },
        };
        let ghost names2 = self.names();
        proof {
            lemma_extends_transitive(old(self).names(), names1, names2);
            lemma_clause_bound_stable(clause_view(init), names1, names2);
        }
        let step = match self.clause(Token::RightParen) {
            Ok(n) => n,
            Err(e) => {
                proof {
                    lemma_extends_transitive(old(self).names(), names2, self.names());
                }
                return Err(e);
            },
        };
        let ghost names3 = self.names();
        proof {
            lemma_extends_transitive(old(self).names(), names2, names3);
            lemma_clause_bound_stable(clause_view(init), names2, names3);
            lemma_clause_bound_stable(clause_view(cond), names2, names3);
        }
        match self.stmt() {
            Ok(then) => {
                proof {
                    lemma_extends_transitive(old(self).names(), names3, self.names());
                    lemma_clause_bound_stable(clause_view(init), names3, self.names());
                    lemma_clause_bound_stable(clause_view(cond), names3, self.names());
                    lemma_clause_bound_stable(clause_view(step), names3, self.names());
                }
                Ok(Box::new(Node::For { init, cond, step, then }))
            },
            Err(e) => {
                proof {
                    lemma_extends_transitive(old(self).names(), names3, self.names());
                }
                Err(e)
            },
        }
    }

    /// Parses one expression: `expression = assignment`.
    ///
    /// The expression ends at the end of the tokens or before the first
    /// token that cannot go on with it, which stays unread.
    pub fn expr(&mut self) -> (r: Result<Box<Node>, ParserError>)
        requires
            old(self).wf(),
        ensures
            final(self).gave_value(
                old(self),
                r,
                grammar::expression(old(self).tokens(), old(self).position(), old(self).names()),
            ),
        decreases old(self).tokens().len() - old(self).position(), 18nat,
    {
        self.assign()
    }

    /// `assignment = equality ("=" assignment)?`
    fn assign(&mut self) -> (r: Result<Box<Node>, ParserError>)
        requires
            old(self).wf(),
        ensures
            final(self).gave_value(
                old(self),
                r,
                grammar::assignment(old(self).tokens(), old(self).position(), old(self).names()),
            ),
        decreases old(self).tokens().len() - old(self).position(), 17nat,
    {
        let node = match self.equality() {
            Ok(n) => n,
            Err(e) => {
                return Err(e);
            },
        };
        let ghost names1 = self.names();
        if self.next_is(&Token::Assign) {
            self.advance();
            match self.assign() {
                Ok(r) => {
                    proof {
                        lemma_extends_transitive(old(self).names(), names1, self.names());
                        lemma_bound_stable(node@, names1, self.names());
                    }
                    Ok(Box::new(Node::Assign { l: node, r }))
                },
                Err(e) => {
                    proof {
                        lemma_extends_transitive(old(self).names(), names1, self.names());
                    }
                    Err(e)
                },
            }
        } else {
            Ok(node)
        }
    }

    /// `equality = relational (("==" | "!=") relational)*`
    fn equality(&mut self) -> (r: Result<Box<Node>, ParserError>)
        requires
            old(self).wf(),
        ensures
            final(self).gave_value(
                old(self),
                r,
                grammar::binary(old(self).tokens(), old(self).position(), old(self).names(), Level::Equality),
            ),
        decreases old(self).tokens().len() - old(self).position(), 16nat,
    {
        self.climb(Level::Equality)
    }

    /// `relational = additive (("<" | "<=" | ">" | ">=") additive)*`
    fn relational(&mut self) -> (r: Result<Box<Node>, ParserError>)
        requires
            old(self).wf(),
        ensures
            final(self).gave_value(
                old(self),
                r,
                grammar::binary(old(self).tokens(), old(self).position(), old(self).names(), Level::Relational),
            ),
        decreases old(self).tokens().len() - old(self).position(), 12nat,
    {
        self.climb(Level::Relational)
    }

    /// `additive = multiplicative (("+" | "-") multiplicative)*`
    fn add(&mut self) -> (r: Result<Box<Node>, ParserError>)
        requires
            old(self).wf(),
        ensures
            final(self).gave_value(
                old(self),
                r,
                grammar::binary(old(self).tokens(), old(self).position(), old(self).names(), Level::Additive),
            ),
        decreases old(self).tokens().len() - old(self).position(), 8nat,
    {
        self.climb(Level::Additive)
    }

    /// `multiplicative = unary (("*" | "/") unary)*`
    fn mul(&mut self) -> (r: Result<Box<Node>, ParserError>)
        requires
            old(self).wf(),
        ensures
            final(self).gave_value(
                old(self),
                r,
                grammar::binary(old(self).tokens(), old(self).position(), old(self).names(), Level::Multiplicative),
            ),
        decreases old(self).tokens().len() - old(self).position(), 4nat,
    {
        self.climb(Level::Multiplicative)
    }

    /// An operand of the operators of `level`.
    fn operand(&mut self, level: Level) -> (r: Result<Box<Node>, ParserError>)
        requires
            old(self).wf(),
        ensures
            final(self).gave_value(
                old(self),
                r,
                grammar::operand(old(self).tokens(), old(self).position(), old(self).names(), level),
            ),
        decreases old(self).tokens().len() - old(self).position(), 2 + 4 * level.rank(),
    {
        match level {
            Level::Multiplicative => self.unary(),
            Level::Additive => self.mul(),
            Level::Relational => self.add(),
            Level::Equality => self.relational(),
        }
    }

    /// An operand of `level`, then the operators of that level with their
    /// right operands, grouped from the left.
    fn climb(&mut self, level: Level) -> (r: Result<Box<Node>, ParserError>)
        requires
            old(self).wf(),
        ensures
            final(self).gave_value(
                old(self),
                r,
                grammar::binary(old(self).tokens(), old(self).position(), old(self).names(), level),
            ),
        decreases old(self).tokens().len() - old(self).position(), 3 + 4 * level.rank(),
    {
        let ghost ts = self.tokens();
        let ghost goal = grammar::binary(ts, self.position(), self.names(), level);
        let mut node = match self.operand(level) {
            Ok(n) => n,
            Err(e) => {
                return Err(e);
            },
        };
        loop
            invariant
                self.wf(),
                self.tokens() == ts,
                ts == old(self).tokens(),
                old(self).position() < self.position() <= ts.len(),
                extends(self.names(), old(self).names()),
                bound(node@, self.names()),
                proper(node@),
                is_expression(node@),
                goal == grammar::binary(ts, old(self).position(), old(self).names(), level),
                goal == grammar::binary_rest(ts, self.position(), self.names(), level, node@),
            decreases ts.len() - self.position(),
        {
            let found = match self.peek() {
                Ok(t) => operator_of(level, t),
                Err(_) => None,
            };
            match found {
                None => {
                    return Ok(node);
                },
                Some((op, swap)) => {
                    let ghost names = self.names();
                    self.advance();
                    let right = match self.operand(level) {
                        Ok(n) => n,
                        Err(e) => {
                            proof {
                                lemma_extends_transitive(old(self).names(), names, self.names());
                            }
                            return Err(e);
                        },
                    };
                    proof {
                        lemma_extends_transitive(old(self).names(), names, self.names());
                        lemma_bound_stable(node@, names, self.names());
                    }
                    node = if swap {
                        make_binary(op, right, node)
                    } else {
                        make_binary(op, node, right)
                    };
                },
            }
        }
    }

    /// `unary = ("+" | "-")? primary`
    fn unary(&mut self) -> (r: Result<Box<Node>, ParserError>)
        requires
            old(self).wf(),
        ensures
            final(self).gave_value(
                old(self),
                r,
                grammar::unary(old(self).tokens(), old(self).position(), old(self).names()),
            ),
        decreases old(self).tokens().len() - old(self).position(), 1nat,
    {
        if self.next_is(&Token::Plus) {
            self.advance();
            self.primary()
        } else if self.next_is(&Token::Minus) {
            self.advance();
            match self.primary() {
                Ok(r) => {
                    let zero = Box::new(Node::Num(0));
                    assert(zero@ == NodeView::Num(0));
                    assert(bound(zero@, self.names()));
                    assert(proper(zero@) && is_expression(zero@));
                    Ok(make_binary(BinOp::Sub, zero, r))
                },
                Err(e) => Err(e),
            }
        } else {
            self.primary()
        }
    }

    /// `primary = number | identifier | "(" expression ")"`
    fn primary(&mut self) -> (r: Result<Box<Node>, ParserError>)
        requires
            old(self).wf(),
        ensures
            final(self).gave_value(
                old(self),
                r,
                grammar::primary(old(self).tokens(), old(self).position(), old(self).names()),
            ),
        decreases old(self).tokens().len() - old(self).position(), 0nat,
    {
        proof {
            lemma_extends_itself(self.names());
        }
        let next_token: Token = match self.peek() {
            Ok(t) => t.clone(),
            Err(e) => {
                return Err(e);
            },
        };
        match next_token {
            Token::Num(n) => {
                self.advance();
                Ok(Box::new(Node::Num(n)))
            },
            Token::Identifier(s) => {
                self.advance();
                let var = self.get_local_var(&s);
                Ok(Box::new(Node::Lvar(var)))
            },
            Token::LeftParen => {
                self.advance();
                let node = match self.expr() {
                    Ok(n) => n,
                    Err(e) => {
                        return Err(e);
                    },
                };
                match self.consume(Token::RightParen) {
                    Ok(_) => Ok(node),
                    Err(e) => Err(e),
                }
            },
            other => {
                let expected: Vec<Token> = vec![
                    Token::Num(0),
                    Token::new_identifer("a"),
                    Token::LeftParen,
                ];
                let actual: Vec<Token> = vec![other];
                proof {
                    assert(token_views(expected@) =~= grammar::primary_starts());
                    assert(token_views(actual@) =~= seq![other@]);
                }
                Err(ParserError::UnexpectedToken { expected, actual })
            },
        }
    }
}

/// The trees `done`, whose variables have their slots in `names`, and the
/// tree `node`, whose variables have theirs in the extension `later`, all
/// have them in `later`.
proof fn lemma_grown(
    done: Seq<NodeView>,
    node: NodeView,
    names: Seq<Seq<char>>,
    later: Seq<Seq<char>>,
)
    requires
        all_bound(done, names),
        bound(node, later),
        extends(later, names),
        all_proper(done),
        proper(node),
    ensures
        all_bound(done.push(node), later),
        all_proper(done.push(node)),
{
    assert forall|i: int| 0 <= i < done.push(node).len() implies proper(
        #[trigger] done.push(node)[i],
    ) by {
        if i < done.len() {
            assert(done.push(node)[i] == done[i]);
        }
    }
    lemma_all_bound_stable(done, names, later);
    assert forall|i: int| 0 <= i < done.push(node).len() implies bound(
        #[trigger] done.push(node)[i],
        later,
    ) by {
        if i < done.len() {
            assert(done.push(node)[i] == done[i]);
        }
    }
}

/// The operator that `token` stands for at `level`, and whether its operands
/// change places.
fn operator_of(level: Level, token: &Token) -> (r: Option<(BinOp, bool)>)
    ensures
        r == grammar::operator_at(level, token@),
{
    match (level, token) {
        (Level::Multiplicative, Token::Multiply) => Some((BinOp::Mul, false)),
        (Level::Multiplicative, Token::Divide) => Some((BinOp::Div, false)),
        (Level::Additive, Token::Plus) => Some((BinOp::Add, false)),
        (Level::Additive, Token::Minus) => Some((BinOp::Sub, false)),
        (Level::Relational, Token::LessThan) => Some((BinOp::Lt, false)),
        (Level::Relational, Token::LessThanOrEqual) => Some((BinOp::Le, false)),
        (Level::Relational, Token::GreaterThan) => Some((BinOp::Lt, true)),
        (Level::Relational, Token::GreaterThanOrEqual) => Some((BinOp::Le, true)),
        (Level::Equality, Token::Equal) => Some((BinOp::Eq, false)),
        (Level::Equality, Token::NotEqual) => Some((BinOp::Ne, false)),
        _ => None,
    }
}

/// The tree of an `if` statement.
fn make_if(cond: Box<Node>, then: Box<Node>, els: Option<Box<Node>>) -> (node: Box<Node>)
    ensures
        node@ == (NodeView::If {
            cond: Box::new(cond@),
            then: Box::new(then@),
            els: clause_view(els),
        }),
{
    Box::new(Node::If { cond, then, els })
}

/// The variables of an `if` statement have their slots where those of its
/// parts have theirs, and the statement is proper if its parts are.
proof fn lemma_if_bound(
    cond: NodeView,
    then: NodeView,
    els: Option<Box<NodeView>>,
    names: Seq<Seq<char>>,
)
    requires
        bound(cond, names),
        bound(then, names),
        clause_bound(els, names),
        proper(cond),
        is_expression(cond),
        proper(then),
        clause_proper(els),
    ensures
        bound(NodeView::If { cond: Box::new(cond), then: Box::new(then), els }, names),
        proper(NodeView::If { cond: Box::new(cond), then: Box::new(then), els }),
{
}

/// The tree of `op` applied to `l` and `r`.
fn make_binary(op: BinOp, l: Box<Node>, r: Box<Node>) -> (node: Box<Node>)
    ensures
        node@ == NodeView::binary(op, l@, r@),
        is_expression(node@),
{
    Box::new(
        match op {
            BinOp::Add => Node::Add { l, r },
            BinOp::Sub => Node::Sub { l, r },
            BinOp::Mul => Node::Mul { l, r },
            BinOp::Div => Node::Div { l, r },
            BinOp::Lt => Node::Lt { l, r },
            BinOp::Le => Node::Le { l, r },
            BinOp::Eq => Node::Eq { l, r },
            BinOp::Ne => Node::Ne { l, r },
        },
    )
}

} // verus!
