use crate::compose::edits_fit;
use crate::compose::edits_of;
use crate::compose::lemma_edits_push;
use crate::compose::replace;
use crate::compose::Edit;
use crate::context::Context;
use crate::error::Fault;
use crate::error::RenderError;
use crate::fits::frontier;
use crate::fits::lemma_fits_bind;
use crate::fits::lemma_fits_pop;
use crate::fits::lemma_fits_push;
use crate::fits::lemma_fits_record;
use crate::fits::lemma_frontier;
use crate::fits::limit;
use crate::fits::stack_fits;
use crate::label::classify;
use crate::label::Label;
use crate::label::ScopeKind;
use crate::pos::Pos;
use crate::scope::bind;
use crate::scope::bound;
use crate::scope::ctx_get;
use crate::scope::frames_of;
use crate::scope::record;
use crate::scope::Frame;
use crate::scope::Scope;
use crate::text::on_boundary;
use crate::text::slice;
use crate::token::lemma_pos_at;
use crate::token::pos_at;
use crate::token::scan;
use crate::token::tokenize;
use crate::token::Token;
use crate::walk::closed;
use crate::walk::continued;
use crate::walk::opened_frame;
use crate::walk::rendering;
use crate::walk::root_frame;
use crate::walk::run;
use crate::walk::settled;
use crate::walk::started;
use crate::walk::step;
use crate::walk::supplied;
use crate::walk::Effect;
use crate::walk::Halt;
use crate::walk::Status;
use crate::walk::Verdict;
use vstd::prelude::*;
use vstd::utf8::encode_utf8;

verus! {

/// What the walk does after a token: go on, or wait for a resource.
enum Action {
    Continue,
    Include { name: String, context: Context, origin: Pos, until: Pos },
}

/// Whether `action`, with the stack `after` it, is the effect `effect`.
spec fn action_is(action: Result<Action, RenderError>, after: Seq<Frame>, effect: Effect) -> bool {
    match action {
        Ok(Action::Continue) => effect == Effect::Continue(after),
        Ok(Action::Include { name, context, origin, until }) => effect == (Effect::Suspend {
            name: name@,
            bindings: context@,
            origin,
            until,
            stack: after,
        }),
        Err(e) => effect == Effect::Fail(e@),
    }
}

/// Whether the walk may go on behind a token that ended at `done`: after a token that lets
/// it continue, the scopes fit up to `beyond`; where it waits for a resource, they fit up to
/// the block that the resource replaces.
spec fn action_fits(
    text: Seq<char>,
    action: Result<Action, RenderError>,
    after: Seq<Frame>,
    done: int,
    beyond: int,
) -> bool {
    match action {
        Ok(Action::Continue) => stack_fits(text, after, beyond),
        Ok(Action::Include { name, context, origin, until }) => {
            &&& stack_fits(text, after, origin.raw as int)
            &&& on_boundary(text, until.raw as int)
            &&& until.raw == done
        },
        Err(e) => true,
    }
}

/// Closes the innermost scope of `stack` at the closing tag from `tag_from` to `tag_to` of a
/// block of `kind`.
fn close_block(
    tmpl: &str,
    stack: &mut Vec<Scope>,
    kind: ScopeKind,
    tag_from: Pos,
    tag_to: Pos,
    Ghost(frontier): Ghost<int>,
    Ghost(beyond): Ghost<int>,
) -> (action: Result<Action, RenderError>)
    requires
        stack_fits(tmpl@, frames_of(old(stack)@), frontier),
        Token::Tag(tag_from, tag_to).fits(tmpl@),
        frontier <= tag_from.raw,
        tag_to.raw <= beyond,
        on_boundary(tmpl@, beyond),
    ensures
        action_is(
            action,
            frames_of(final(stack)@),
            closed(tmpl@, frames_of(old(stack)@), kind, tag_from, tag_to),
        ),
        action_fits(tmpl@, action, frames_of(final(stack)@), tag_to.raw as int, beyond),
{
    let ghost text = tmpl@;
    let ghost before = frames_of(stack@);
    if stack.len() == 1 {
        return Err(RenderError::UnexpectedClosingTag(tag_from));
    }
    let cur = match stack.pop() {
        Some(cur) => cur,
        None => {
            return Err(RenderError::UnexpectedClosingTag(tag_from));
        },
    };
    proof {
        assert(cur@ == before.last());
        assert(frames_of(stack@) =~= before.drop_last());
        lemma_fits_pop(text, before, frontier);
    }
    if cur.kind != kind {
        return Err(RenderError::UnexpectedClosingTag(tag_from));
    }
    match kind {
        ScopeKind::FileInclude => Ok(
            Action::Include { name: cur.name, context: cur.ctx, origin: cur.from, until: tag_to },
        ),
        _ => {
            let ghost below = frames_of(stack@);
            let ghost mark = Edit { from: tag_from, to: tag_to, text: Seq::<char>::empty() };
            let ghost gone = Edit { from: cur.from, to: tag_to, text: Seq::<char>::empty() };
            let ghost inner = cur@.pending;
            let Scope { from, kind: _, name, ctx: _, replace: mut edits } = cur;
            edits.push((tag_from, tag_to, String::new()));
            proof {
                assert(edits_of(edits@) =~= inner.push(mark));
                assert(limit(before, before.len() - 1, frontier) == frontier);
                lemma_edits_push(
                    text,
                    from.raw as int,
                    frontier,
                    tag_to.raw as int,
                    inner,
                    mark,
                );
            }
            let value = replace(tmpl, (from, tag_to), edits);
            bind(stack, name, value);
            proof {
                lemma_fits_bind(text, below, name@, value@, from.raw as int);
                assert(limit(below, below.len() - 1, from.raw as int) == from.raw);
                lemma_fits_record(
                    text,
                    bound(below, name@, value@),
                    gone,
                    from.raw as int,
                    beyond,
                );
            }
            record(stack, from, tag_to, String::new());
            Ok(Action::Continue)
        },
    }
}

/// Does to `stack` what the token `tok` asks for.
fn apply(
    tmpl: &str,
    stack: &mut Vec<Scope>,
    tok: Token,
    Ghost(frontier): Ghost<int>,
    Ghost(beyond): Ghost<int>,
) -> (action: Result<Action, RenderError>)
    requires
        encode_utf8(tmpl@).len() < usize::MAX,
        stack_fits(tmpl@, frames_of(old(stack)@), frontier),
        tok.fits(tmpl@),
        frontier <= tok.start(),
        tok.end() <= beyond,
        on_boundary(tmpl@, beyond),
    ensures
        action_is(action, frames_of(final(stack)@), step(tmpl@, frames_of(old(stack)@), tok)),
        action_fits(tmpl@, action, frames_of(final(stack)@), tok.end(), beyond),
{
    let ghost text = tmpl@;
    let ghost before = frames_of(stack@);
    proof {
        reveal(step);
        assert(limit(before, before.len() - 1, frontier) == frontier);
        assert(edits_fit(
            text,
            before.last().origin.raw as int,
            frontier,
            before.last().pending,
        ));
    }
    match tok {
        Token::Bang(at) => {
            let to = at + '!';
            proof {
                lemma_fits_record(
                    text,
                    before,
                    Edit { from: at, to, text: Seq::<char>::empty() },
                    frontier,
                    beyond,
                );
            }
            record(stack, at, to, String::new());
            Ok(Action::Continue)
        },
        Token::Tag(tag_from, tag_to) => {
            let label_from = tag_from + '{';
            let label_to = tag_to - '}';
            let label = slice(tmpl, label_from.raw, label_to.raw);
            match classify(label) {
                Label::Name => {
                    match ctx_get(stack, label) {
                        Some(val) => {
                            proof {
                                lemma_fits_record(
                                    text,
                                    before,
                                    Edit { from: tag_from, to: tag_to, text: val@ },
                                    frontier,
                                    beyond,
                                );
                            }
                            record(stack, tag_from, tag_to, val);
                            Ok(Action::Continue)
                        },
                        None => Err(RenderError::UndefinedName(label_from, label.to_owned())),
                    }
                },
                Label::Unmatched(kind) => {
                    match kind {
                        ScopeKind::FileInclude => Err(RenderError::MissingHash(tag_to)),
                        _ => Err(RenderError::MissingColon(tag_to)),
                    }
                },
                Label::Open(kind, name) => {
                    let mut edits: Vec<(Pos, Pos, String)> = Vec::new();
                    match kind {
                        ScopeKind::Definition => {
                            edits.push((tag_from, tag_to, String::new()));
                        },
                        _ => {},
                    }
                    let scope = Scope { from: tag_from, kind, name, ctx: Context::new(), replace: edits };
                    proof {
                        assert(scope@.pending =~= opened_frame(
                            kind,
                            tag_from,
                            tag_to,
                            name@,
                        ).pending);
                        assert(scope@ == opened_frame(kind, tag_from, tag_to, name@));
                        if kind == ScopeKind::Definition {
                            assert(scope@.pending.take(0) =~= Seq::<Edit>::empty());
                        }
                        lemma_fits_push(text, before, scope@, frontier, beyond);
                    }
                    stack.push(scope);
                    proof {
                        assert(frames_of(stack@) =~= before.push(scope@));
                    }
                    Ok(Action::Continue)
                },
                Label::Close(kind) => close_block(
                    tmpl,
                    stack,
                    kind,
                    tag_from,
                    tag_to,
                    Ghost(frontier),
                    Ghost(beyond),
                ),
            }
        },
    }
}

/// One walk that waits for an included resource: a template, its tokens and its open
/// scopes, and the span of the include block that the resource's rendered text replaces.
struct Suspended {
    text: String,
    tokens: Vec<Token>,
    end: Pos,
    next: usize,
    stack: Vec<Scope>,
    origin: Pos,
    until: Pos,
}

impl View for Suspended {
    type V = Halt;

    closed spec fn view(&self) -> Halt {
        Halt {
            text: self.text@,
            next: self.next as int,
            stack: frames_of(self.stack@),
            origin: self.origin,
            until: self.until,
        }
    }
}

impl Suspended {
    #[verifier::type_invariant]
    spec fn well_formed(self) -> bool {
        &&& encode_utf8(self.text@).len() < usize::MAX
        &&& scan(self.text@) == Ok::<Seq<Token>, Fault>(self.tokens@)
        &&& self.end == pos_at(self.text@, self.text@.len() as int)
        &&& self.next <= self.tokens.len()
        &&& stack_fits(self.text@, frames_of(self.stack@), self.origin.raw as int)
        &&& on_boundary(self.text@, self.until.raw as int)
        &&& self.until.raw <= frontier(self.text@, self.tokens@, self.next as int)
    }
}

/// How one walk ended or paused.
enum Pace {
    Finished(String),
    Include { name: String, context: Context, rest: Suspended },
}

/// What the result of one walk says, as contracts see it.
spec fn verdict_of(outcome: Result<Pace, RenderError>) -> Verdict {
    match outcome {
        Ok(Pace::Finished(out)) => Verdict::Finished(out@),
        Ok(Pace::Include { name, context, rest }) => Verdict::Awaiting {
            name: name@,
            bindings: context@,
            halt: rest@,
        },
        Err(e) => Verdict::Failed(e@),
    }
}

/// How the walk goes on from a token is told by what that token does.
proof fn lemma_run_step(text: Seq<char>, tokens: Seq<Token>, next: int, stack: Seq<Frame>)
    requires
        0 <= next < tokens.len(),
    ensures
        run(text, tokens, next, stack) == match step(text, stack, tokens[next]) {
            Effect::Continue(after) => run(text, tokens, next + 1, after),
            Effect::Suspend { name, bindings, origin, until, stack } => Verdict::Awaiting {
                name,
                bindings,
                halt: Halt { text, next: next + 1, stack, origin, until },
            },
            Effect::Fail(fault) => Verdict::Failed(fault),
        },
{
}

/// Walks the tokens of `text` from index `start` on, until the template is rendered, an
/// include block is closed or the render fails.
fn proceed(text: String, tokens: Vec<Token>, end: Pos, start: usize, scopes: Vec<Scope>) -> (outcome:
    Result<Pace, RenderError>)
    requires
        encode_utf8(text@).len() < usize::MAX,
        scan(text@) == Ok::<Seq<Token>, Fault>(tokens@),
        end == pos_at(text@, text@.len() as int),
        start <= tokens.len(),
        stack_fits(text@, frames_of(scopes@), frontier(text@, tokens@, start as int)),
    ensures
        verdict_of(outcome) == run(text@, tokens@, start as int, frames_of(scopes@)),
{
    let ghost chars = text@;
    let ghost first = frames_of(scopes@);
    let mut stack = scopes;
    let mut next = start;
    while next < tokens.len()
        invariant
            chars == text@,
            first == frames_of(scopes@),
            encode_utf8(chars).len() < usize::MAX,
            scan(chars) == Ok::<Seq<Token>, Fault>(tokens@),
            end == pos_at(chars, chars.len() as int),
            start <= next <= tokens.len(),
            stack_fits(chars, frames_of(stack@), frontier(chars, tokens@, next as int)),
            run(chars, tokens@, next as int, frames_of(stack@)) == run(
                chars,
                tokens@,
                start as int,
                first,
            ),
        decreases tokens.len() - next,
    {
        let tok = tokens[next];
        let ghost here = frontier(chars, tokens@, next as int);
        let ghost beyond = frontier(chars, tokens@, next + 1);
        let ghost frames = frames_of(stack@);
        proof {
            lemma_frontier(chars, tokens@, next as int);
            lemma_frontier(chars, tokens@, next + 1);
        }
        let action = apply(text.as_str(), &mut stack, tok, Ghost(here), Ghost(beyond));
        proof {
            lemma_run_step(chars, tokens@, next as int, frames);
        }
        match action {
            Err(e) => {
                return Err(e);
            },
            Ok(Action::Include { name, context, origin, until }) => {
                return Ok(
                    Pace::Include {
                        name,
                        context,
                        rest: Suspended { text, tokens, end, next: next + 1, stack, origin, until },
                    },
                );
            },
            Ok(Action::Continue) => {},
        }
        next = next + 1;
    }
    if stack.len() > 1 {
        return Err(RenderError::MissingClosingTag(stack[stack.len() - 1].from));
    }
    match stack.pop() {
        Some(cur) => {
            proof {
                lemma_pos_at(chars, chars.len() as int);
                assert(chars.take(chars.len() as int) =~= chars);
                assert(limit(frames_of(stack@).push(cur@), 0, end.raw as int) == end.raw);
            }
            Ok(Pace::Finished(replace(text.as_str(), (cur.from, end), cur.replace)))
        },
        None => Err(RenderError::MissingClosingTag(end)),
    }
}

/// Scans `text` and walks its tokens with the bindings of `ctx` in the root scope.
fn begin(text: String, ctx: Context) -> (outcome: Result<Pace, RenderError>)
    requires
        encode_utf8(text@).len() < usize::MAX,
    ensures
        verdict_of(outcome) == rendering(text@, ctx@),
{
    let scanned = match tokenize(text.as_str()) {
        Ok(scanned) => scanned,
        Err(e) => {
            return Err(e);
        },
    };
    let root = Scope {
        from: Pos::start(),
        kind: ScopeKind::Root,
        name: String::new(),
        ctx,
        replace: Vec::new(),
    };
    let mut stack: Vec<Scope> = Vec::new();
    stack.push(root);
    proof {
        assert(root@.pending =~= Seq::<Edit>::empty());
        assert(frames_of(stack@) =~= seq![root_frame(ctx@)]);
        lemma_frontier(text@, scanned.tokens@, 0);
        vstd::utf8::encode_utf8_valid_utf8(text@);
    }
    proceed(text, scanned.tokens, scanned.end, 0, stack)
}

impl Suspended {
    /// Goes on with the walk, with `included` in place of the include block that it
    /// waited for.
    fn resume(self, included: String) -> (outcome: Result<Pace, RenderError>)
        ensures
            verdict_of(outcome) == continued(self@, included@),
    {
        proof {
            use_type_invariant(&self);
        }
        let Suspended { text, tokens, end, next, stack, origin, until } = self;
        let mut stack = stack;
        proof {
            let frames = frames_of(stack@);
            assert(limit(frames, frames.len() - 1, origin.raw as int) == origin.raw);
            lemma_frontier(text@, tokens@, next as int);
            lemma_fits_record(
                text@,
                frames,
                Edit { from: origin, to: until, text: included@ },
                origin.raw as int,
                frontier(text@, tokens@, next as int),
            );
        }
        record(&mut stack, origin, until, included);
        proceed(text, tokens, end, next, stack)
    }
}

/// A render that waits for a resource: the walks that wait, one inside the other, and the
/// bindings with which the resource is to be rendered.
pub struct Waiting {
    halts: Vec<Suspended>,
    context: Context,
}

/// An include block that was closed: the host is to read the resource `name` and to hand
/// what it read, or why it could not, to `rest`.
pub struct Inclusion {
    pub name: String,
    pub rest: Waiting,
}

/// How far a render has come.
pub enum Progress {
    /// The template is rendered: this is the output.
    Finished(String),
    /// The render waits for a resource.
    Include(Inclusion),
}

/// The walks of a list as contracts see them.
spec fn halts_of(walks: Seq<Suspended>) -> Seq<Halt> {
    walks.map_values(|walk: Suspended| walk@)
}

impl Waiting {
    /// The walks that wait, outermost first.
    pub closed spec fn halts(&self) -> Seq<Halt> {
        halts_of(self.halts@)
    }

    /// The bindings with which the awaited resource is to be rendered.
    pub closed spec fn bindings(&self) -> Map<Seq<char>, Seq<char>> {
        self.context@
    }
}

/// What a result of the renderer says, as contracts see it.
pub open spec fn status_of(outcome: Result<Progress, RenderError>) -> Status {
    match outcome {
        Ok(Progress::Finished(out)) => Status::Finished(out@),
        Ok(Progress::Include(inclusion)) => Status::Waiting {
            name: inclusion.name@,
            bindings: inclusion.rest.bindings(),
            halts: inclusion.rest.halts(),
        },
        Err(e) => Status::Failed(e@),
    }
}

/// Carries the outcome of the innermost walk outwards through the walks that wait around
/// it, for as long as walks finish.
fn settle(walks: Vec<Suspended>, inner: Result<Pace, RenderError>) -> (outcome: Result<
    Progress,
    RenderError,
>)
    ensures
        status_of(outcome) == settled(halts_of(walks@), verdict_of(inner)),
{
    let mut halts = walks;
    let mut pace = inner;
    loop
        invariant
            settled(halts_of(halts@), verdict_of(pace)) == settled(
                halts_of(walks@),
                verdict_of(inner),
            ),
        decreases halts.len(),
    {
        match pace {
            Err(e) => {
                return Err(e);
            },
            Ok(Pace::Include { name, context, rest }) => {
                let ghost before = halts_of(halts@);
                halts.push(rest);
                proof {
                    assert(halts_of(halts@) =~= before.push(rest@));
                }
                return Ok(Progress::Include(Inclusion { name, rest: Waiting { halts, context } }));
            },
            Ok(Pace::Finished(out)) => {
                let ghost before = halts_of(halts@);
                match halts.pop() {
                    None => {
                        return Ok(Progress::Finished(out));
                    },
                    Some(outer) => {
                        proof {
                            assert(halts_of(halts@) =~= before.drop_last());
                            assert(outer@ == before.last());
                        }
                        pace = outer.resume(out);
                    },
                }
            },
        }
    }
}

/// Renders `tmpl` with the bindings of `ctx`: to the end, to the first fault, or to the
/// first include block, whose resource the host has to supply.
pub fn render(tmpl: &str, ctx: Context) -> (outcome: Result<Progress, RenderError>)
    requires
        encode_utf8(tmpl@).len() < usize::MAX,
    ensures
        status_of(outcome) == started(tmpl@, ctx@),
{
    let pace = begin(tmpl.to_owned(), ctx);
    let walks: Vec<Suspended> = Vec::new();
    proof {
        assert(halts_of(walks@) =~= Seq::<Halt>::empty());
    }
    settle(walks, pace)
}

impl Waiting {
    /// Goes on with the render once the host has dealt with the awaited resource. Content
    /// that was read is rendered with the bindings of the include block, and its output
    /// takes the block's place; the render then goes on to the end, to the first fault or
    /// to the next include block. A resource that could not be read fails the render with
    /// the reason given.
    pub fn supply(self, resource: Result<String, String>) -> (outcome: Result<
        Progress,
        RenderError,
    >)
        requires
            resource matches Ok(content) ==> encode_utf8(content@).len() < usize::MAX,
        ensures
            status_of(outcome) == supplied(
                self.halts(),
                self.bindings(),
                match resource {
                    Ok(content) => Ok(content@),
                    Err(reason) => Err(reason@),
                },
            ),
            resource matches Err(reason) ==> outcome matches Err(RenderError::IoError(told))
                && told == reason,
    {
        let Waiting { halts, context } = self;
        match resource {
            Err(reason) => Err(RenderError::IoError(reason)),
            Ok(content) => {
                let pace = begin(content, context);
                settle(halts, pace)
            },
        }
    }
}

} // verus!
