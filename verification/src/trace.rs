//! Where a path leads that need not exist: what exists of it is resolved, links that lead
//! to what does not exist are followed, and what is missing is taken to be made.

use vstd::prelude::*;

use crate::host::{Ask, Progress, Reply, Request, SteadyHost};
use crate::paths::{
    byte_texts, bytes_of, components, file_name, is_absolute, is_name, join,
    law_components_are_names, law_file_name_is_name, law_join_appends_name, law_parent_is_shorter,
    parent, path_components, path_join, path_parent, DOT, SLASH,
};
use crate::resolve::{resolution_goes_on, Resolution, ResolutionProgress};

verus! {

/// How many links are followed at most, which is more than hosts follow.
pub const MAX_LINKS: usize = 64;

/// How far a path was followed.
pub ghost struct Way {
    /// What exists of the path leads here.
    pub lead: Seq<u8>,
    /// What is missing of the path goes on here, one name below the other.
    pub spots: Seq<Seq<u8>>,
    /// All that was missing on the way.
    pub met: Seq<Seq<u8>>,
    /// How many links may still be followed.
    pub links: nat,
    /// The components that are still to be followed, the next of them last.
    pub rest: Seq<Seq<u8>>,
}

/// What comes next on a way.
pub ghost enum Turn {
    /// It has to be found out where the place leads that is next. The name that leads
    /// there goes down, or it does not.
    Look(Way, Seq<u8>, bool),
    /// The way ends.
    End(Seq<u8>, Seq<Seq<u8>>),
}

/// The component by which a path goes up.
pub open spec fn goes_up(c: Seq<u8>) -> bool {
    c == seq![DOT, DOT]
}

/// The component is a name that goes down.
pub open spec fn goes_down(c: Seq<u8>) -> bool {
    !goes_up(c) && c != seq![DOT] && c != seq![SLASH]
}

impl Way {
    /// The way of `rest` from `lead` on.
    pub open spec fn start(lead: Seq<u8>, rest: Seq<Seq<u8>>) -> Way {
        Way { lead, spots: seq![], met: seq![], links: MAX_LINKS as nat, rest }
    }

    /// Where the way has come to.
    pub open spec fn at(self) -> Seq<u8> {
        if self.spots.len() == 0 {
            self.lead
        } else {
            self.spots.last()
        }
    }

    /// The way goes on from what exists at `lead`.
    pub open spec fn found(self, lead: Seq<u8>) -> Way {
        Way { lead, spots: seq![], ..self }
    }

    /// The way goes down to `spot`, which is missing.
    pub open spec fn down(self, spot: Seq<u8>) -> Way {
        Way { spots: self.spots.push(spot), met: self.met.push(spot), ..self }
    }

    /// The way goes on by what a link points to.
    pub open spec fn linked(self, points_to: Seq<u8>) -> Way {
        Way {
            links: (self.links - 1) as nat,
            rest: self.rest + components(points_to).reverse(),
            ..self
        }
    }

    /// What comes next. Below what is missing, all is missing, and the way goes up again
    /// as it came down.
    pub open spec fn turn(self) -> Turn
        decreases self.rest.len(),
    {
        let on = Way { rest: self.rest.drop_last(), ..self };
        let c = self.rest.last();
        if self.rest.len() == 0 {
            Turn::End(self.at(), self.met)
        } else if c == seq![DOT] {
            on.turn()
        } else if self.spots.len() == 0 || c == seq![SLASH] {
            Turn::Look(on.found(self.lead), join(self.lead, c), goes_down(c))
        } else if goes_up(c) {
            Way { spots: self.spots.drop_last(), ..on }.turn()
        } else {
            on.down(join(self.at(), c)).turn()
        }
    }
}

/// How far a path was followed.
#[derive(Debug)]
pub struct Descent {
    pub lead: Vec<u8>,
    pub spots: Vec<Vec<u8>>,
    pub met: Vec<Vec<u8>>,
    pub links: usize,
    pub rest: Vec<Vec<u8>>,
}

impl View for Descent {
    type V = Way;

    open spec fn view(&self) -> Way {
        Way {
            lead: self.lead@,
            spots: byte_texts(self.spots@),
            met: byte_texts(self.met@),
            links: self.links as nat,
            rest: byte_texts(self.rest@),
        }
    }
}

/// Where a path was found to lead.
#[derive(Debug)]
pub enum Traced {
    /// It leads to `end`, and all of `met` is missing on the way.
    Landed { end: Vec<u8>, met: Vec<Vec<u8>> },
    /// It leads nowhere: through too many links, or to what the host cannot resolve.
    Lost,
}

/// Where a path leads.
pub ghost enum Landing {
    At(Seq<u8>, Seq<Seq<u8>>),
    Lost,
}

impl View for Traced {
    type V = Landing;

    open spec fn view(&self) -> Landing {
        match *self {
            Traced::Landed { end, met } => Landing::At(end@, byte_texts(met@)),
            Traced::Lost => Landing::Lost,
        }
    }
}

/// A path that is traced to where it leads.
#[derive(Debug)]
pub enum Trace {
    /// Where `at` leads is asked for. It is what is left of the path once the components
    /// `rest` are taken away, the nearest of which is the last.
    Climbing { at: Vec<u8>, rest: Vec<Vec<u8>> },
    /// Where `place` leads is asked for, which is next. The name that leads there goes
    /// `down`, or it does not.
    Looking { descent: Descent, place: Vec<u8>, down: bool },
    /// `place` does not lead anywhere, and what it points to if it is a link is asked for.
    Linking { descent: Descent, place: Vec<u8> },
}

/// A trace that waits for a reply, or where the path leads.
pub type TraceProgress = Progress<Trace, Traced>;

/// The trace takes the turn.
pub open spec fn takes_turn(turn: Turn, next: TraceProgress) -> bool {
    match turn {
        Turn::Look(w, q, d) => next matches Progress::Waiting(
            Trace::Looking { descent, place, down },
        ) && descent@ == w && place@ == q && down == d,
        Turn::End(end, met) => next matches Progress::Finished(d) && d@ == Landing::At(end, met),
    }
}

/// How a trace goes on where `at` does not lead anywhere.
pub open spec fn climbs(at: Seq<u8>, rest: Seq<Vec<u8>>, next: TraceProgress) -> bool {
    match parent(at) {
        Some(above) if components(at).len() > 0 => {
            &&& next matches Progress::Waiting(Trace::Climbing { at: q, rest: r })
            &&& q@ == above
            &&& byte_texts(r@) == byte_texts(rest).push(components(at).last())
        },
        _ => next == TraceProgress::Finished(Traced::Lost),
    }
}

/// How a trace goes on after a reply.
pub open spec fn trace_goes_on(t: Trace, reply: Reply, next: TraceProgress) -> bool {
    match t {
        Trace::Climbing { at, rest } => match reply {
            Reply::Path(lead) => takes_turn(
                Way::start(lead@, byte_texts(rest@)).turn(),
                next,
            ),
            _ => climbs(at@, rest@, next),
        },
        Trace::Looking { descent, place, down } => match reply {
            Reply::Path(lead) => takes_turn(descent@.found(lead@).turn(), next),
            _ => if down {
                next == TraceProgress::Waiting(Trace::Linking { descent, place })
            } else {
                next == TraceProgress::Finished(Traced::Lost)
            },
        },
        Trace::Linking { descent, place } => match reply {
            Reply::Path(points_to) => if descent.links == 0 {
                next == TraceProgress::Finished(Traced::Lost)
            } else {
                takes_turn(descent@.linked(points_to@).turn(), next)
            },
            _ => takes_turn(descent@.down(place@).turn(), next),
        },
    }
}

/// A copy of a path.
fn copy_of(p: &Vec<u8>) -> (r: Vec<u8>)
    ensures
        r@ == p@,
{
    let r = bytes_of(p.as_slice(), 0, p.len());
    assert(r@ =~= p@);
    r
}

/// Whether the component is `.`.
fn is_dot(c: &Vec<u8>) -> (r: bool)
    ensures
        r == (c@ == seq![DOT]),
{
    assert(c@.len() == 1 && c@[0] == DOT ==> c@ =~= seq![DOT]);
    assert(seq![DOT].len() == 1 && seq![DOT][0] == DOT);
    c.len() == 1 && c[0] == DOT
}

/// Whether the component is `/`.
fn is_root(c: &Vec<u8>) -> (r: bool)
    ensures
        r == (c@ == seq![SLASH]),
{
    assert(c@.len() == 1 && c@[0] == SLASH ==> c@ =~= seq![SLASH]);
    assert(seq![SLASH].len() == 1 && seq![SLASH][0] == SLASH);
    c.len() == 1 && c[0] == SLASH
}

/// Whether the component is `..`.
fn is_up(c: &Vec<u8>) -> (r: bool)
    ensures
        r == goes_up(c@),
{
    assert(c@.len() == 2 && c@[0] == DOT && c@[1] == DOT ==> c@ =~= seq![DOT, DOT]);
    let ghost two = seq![DOT, DOT];
    assert(two.len() == 2 && two[0] == DOT && two[1] == DOT);
    c.len() == 2 && c[0] == DOT && c[1] == DOT
}

impl Descent {
    /// Follows the way up to where something has to be found out, or to its end.
    fn advance(self) -> (next: TraceProgress)
        ensures
            takes_turn(self@.turn(), next),
    {
        let ghost turn = self@.turn();
        let Descent { lead, mut spots, mut met, links, mut rest } = self;
        loop
            invariant
                turn == self@.turn(),
                (Way {
                    lead: lead@,
                    spots: byte_texts(spots@),
                    met: byte_texts(met@),
                    links: links as nat,
                    rest: byte_texts(rest@),
                }).turn() == turn,
            decreases rest@.len(),
        {
            let ghost before = rest@;
            let c = match rest.pop() {
                Some(c) => c,
                None => {
                    assert(spots@.len() > 0 ==> byte_texts(spots@).last() == spots@.last()@);
                    let end = match spots.pop() {
                        Some(end) => end,
                        None => lead,
                    };
                    return Progress::Finished(Traced::Landed { end, met });
                },
            };
            proof {
                assert(byte_texts(before).last() == c@);
                assert(byte_texts(rest@) =~= byte_texts(before).drop_last());
            }
            if is_dot(&c) {
                continue;
            }
            if spots.len() == 0 || is_root(&c) {
                let down = !is_root(&c) && !is_up(&c);
                let place = path_join(lead.as_slice(), c.as_slice());
                let spots: Vec<Vec<u8>> = Vec::new();
                assert(byte_texts(spots@) =~= seq![]);
                let descent = Descent { lead, spots, met, links, rest };
                return Progress::Waiting(Trace::Looking { descent, place, down });
            }
            if is_up(&c) {
                let ghost old_spots = spots@;
                let _ = spots.pop();
                assert(byte_texts(spots@) =~= byte_texts(old_spots).drop_last());
                continue;
            }
            let spot = path_join(spots[spots.len() - 1].as_slice(), c.as_slice());
            let again = copy_of(&spot);
            let ghost old_spots = spots@;
            let ghost old_met = met@;
            assert(byte_texts(old_spots).last() == old_spots.last()@);
            spots.push(spot);
            met.push(again);
            assert(byte_texts(spots@) =~= byte_texts(old_spots).push(spot@));
            assert(byte_texts(met@) =~= byte_texts(old_met).push(spot@));
        }
    }
}

impl Trace {
    /// Begins to trace a path that the host could not resolve.
    pub fn climbing(path: &Vec<u8>) -> (t: Trace)
        ensures
            t matches Trace::Climbing { at, rest } && at@ == path@ && rest@.len() == 0,
    {
        let rest: Vec<Vec<u8>> = Vec::new();
        assert(byte_texts(rest@) =~= seq![]);
        Trace::Climbing { at: copy_of(path), rest }
    }

    /// Begins to trace the file `name`, which the host could not resolve, below the
    /// directory `dir`, which it could.
    pub fn beside(dir: &Vec<u8>, name: &Vec<u8>) -> (t: Trace)
        ensures
            t matches Trace::Linking { descent, place } && descent@ == Way::start(dir@, seq![])
                && place@ == join(dir@, name@),
    {
        let spots: Vec<Vec<u8>> = Vec::new();
        let met: Vec<Vec<u8>> = Vec::new();
        let rest: Vec<Vec<u8>> = Vec::new();
        assert(byte_texts(rest@) =~= seq![]);
        let place = path_join(dir.as_slice(), name.as_slice());
        let descent = Descent { lead: copy_of(dir), spots, met, links: MAX_LINKS, rest };
        Trace::Linking { descent, place }
    }

    /// What the trace asks for.
    pub open spec fn ask(self) -> Ask {
        match self {
            Trace::Climbing { at, .. } => Ask::Canonicalize(at@),
            Trace::Looking { place, .. } => Ask::Canonicalize(place@),
            Trace::Linking { place, .. } => Ask::ReadLink(place@),
        }
    }

    /// What the trace asks for.
    pub fn request(&self) -> (r: Request<'_>)
        ensures
            r@ == self.ask(),
    {
        match self {
            Trace::Climbing { at, .. } => Request::Canonicalize(at),
            Trace::Looking { place, .. } => Request::Canonicalize(place),
            Trace::Linking { place, .. } => Request::ReadLink(place),
        }
    }

    /// Goes on after a reply.
    pub fn step(self, reply: Reply) -> (next: TraceProgress)
        ensures
            trace_goes_on(self, reply, next),
    {
        match self {
            Trace::Climbing { at, rest } => match reply {
                Reply::Path(lead) => {
                    let spots: Vec<Vec<u8>> = Vec::new();
                    let met: Vec<Vec<u8>> = Vec::new();
                    assert(byte_texts(spots@) =~= seq![]);
                    let descent = Descent { lead, spots, met, links: MAX_LINKS, rest };
                    assert(descent@ == Way::start(lead@, byte_texts(rest@)));
                    descent.advance()
                },
                _ => {
                    let ghost before = rest@;
                    let mut rest = rest;
                    let mut parts = path_components(at.as_slice());
                    let ghost all = parts@;
                    match (path_parent(at.as_slice()), parts.pop()) {
                        (Some(above), Some(last)) => {
                            rest.push(last);
                            assert(byte_texts(all).last() == last@);
                            assert(byte_texts(rest@) =~= byte_texts(before).push(last@));
                            Progress::Waiting(Trace::Climbing { at: above, rest })
                        },
                        _ => Progress::Finished(Traced::Lost),
                    }
                },
            },
            Trace::Looking { descent, place, down } => match reply {
                Reply::Path(lead) => {
                    let Descent { met, links, rest, .. } = descent;
                    let spots: Vec<Vec<u8>> = Vec::new();
                    assert(byte_texts(spots@) =~= seq![]);
                    Descent { lead, spots, met, links, rest }.advance()
                },
                _ => if down {
                    Progress::Waiting(Trace::Linking { descent, place })
                } else {
                    Progress::Finished(Traced::Lost)
                },
            },
            Trace::Linking { descent, place } => match reply {
                Reply::Path(points_to) => {
                    if descent.links == 0 {
                        return Progress::Finished(Traced::Lost);
                    }
                    let Descent { lead, spots, met, links, mut rest } = descent;
                    let ghost before = rest@;
                    let mut parts = path_components(points_to.as_slice());
                    let ghost all = parts@;
                    while parts.len() > 0
                        invariant
                            byte_texts(rest@) + byte_texts(parts@).reverse() == byte_texts(before)
                                + byte_texts(all).reverse(),
                        decreases parts@.len(),
                    {
                        let ghost (r0, p0) = (rest@, parts@);
                        if let Some(c) = parts.pop() {
                            rest.push(c);
                            assert(byte_texts(rest@) + byte_texts(parts@).reverse() =~= byte_texts(
                                r0,
                            ) + byte_texts(p0).reverse());
                        }
                    }
                    assert(byte_texts(rest@) =~= byte_texts(before) + byte_texts(all).reverse());
                    Descent { lead, spots, met, links: links - 1, rest }.advance()
                },
                _ => {
                    let Descent { lead, mut spots, mut met, links, rest } = descent;
                    let ghost (s0, m0) = (spots@, met@);
                    spots.push(copy_of(&place));
                    met.push(place);
                    assert(byte_texts(spots@) =~= byte_texts(s0).push(place@));
                    assert(byte_texts(met@) =~= byte_texts(m0).push(place@));
                    Descent { lead, spots, met, links, rest }.advance()
                },
            },
        }
    }

    /// How far a trace is from its end.
    pub open spec fn distance(self) -> (nat, nat, nat) {
        match self {
            Trace::Climbing { at, .. } => ((MAX_LINKS + 1) as nat, at@.len(), 0),
            Trace::Looking { descent, .. } => (descent.links as nat, descent.rest@.len(), 1),
            Trace::Linking { descent, .. } => (descent.links as nat, descent.rest@.len(), 0),
        }
    }

    /// No more links are to be followed than there may be.
    pub open spec fn is_bounded(self) -> bool {
        match self {
            Trace::Climbing { .. } => true,
            Trace::Looking { descent, .. } => descent.links <= MAX_LINKS,
            Trace::Linking { descent, .. } => descent.links <= MAX_LINKS,
        }
    }

    /// Where the trace leads on a steady host.
    pub open spec fn outcome(self, host: SteadyHost) -> Landing {
        match self {
            Trace::Climbing { at, rest } => climbed(host, at@, byte_texts(rest@)),
            Trace::Looking { descent, place, down } => looked(host, descent@, place@, down),
            Trace::Linking { descent, place } => linked(host, descent@, place@),
        }
    }
}

/// What is next to be found out on a way comes after fewer components.
pub proof fn lemma_turn_comes_nearer(w: Way)
    ensures
        w.turn() matches Turn::Look(v, _, _) ==> v.rest.len() < w.rest.len() && v.links == w.links,
    decreases w.rest.len(),
{
    if w.rest.len() > 0 {
        let c = w.rest.last();
        let on = Way { rest: w.rest.drop_last(), ..w };
        lemma_turn_comes_nearer(on);
        lemma_turn_comes_nearer(Way { spots: w.spots.drop_last(), ..on });
        lemma_turn_comes_nearer(on.down(join(w.at(), c)));
    }
}

/// Where a way leads on a steady host.
pub open spec fn followed(host: SteadyHost, w: Way) -> Landing
    decreases w.links, w.rest.len(), 0int,
{
    proof {
        lemma_turn_comes_nearer(w);
    }
    match w.turn() {
        Turn::Look(v, place, down) => looked(host, v, place, down),
        Turn::End(end, met) => Landing::At(end, met),
    }
}

/// Where a way leads on a steady host on which it goes on with `place`.
pub open spec fn looked(host: SteadyHost, w: Way, place: Seq<u8>, down: bool) -> Landing
    decreases w.links, w.rest.len(), 2int,
{
    match (host.canonical)(place) {
        Some(lead) => followed(host, w.found(lead)),
        None => if down {
            linked(host, w, place)
        } else {
            Landing::Lost
        },
    }
}

/// Where a way leads on a steady host on which it goes on with `place`, which does not lead
/// anywhere: on by what it points to, if it is a link, and else to what is missing.
pub open spec fn linked(host: SteadyHost, w: Way, place: Seq<u8>) -> Landing
    decreases w.links, w.rest.len(), 1int,
{
    match (host.link)(place) {
        Some(points_to) => if w.links == 0 {
            Landing::Lost
        } else {
            followed(host, w.linked(points_to))
        },
        None => followed(host, w.down(place)),
    }
}

/// Where a path leads on a steady host, of which `at` is left once the components `rest`
/// are taken away.
pub open spec fn climbed(host: SteadyHost, at: Seq<u8>, rest: Seq<Seq<u8>>) -> Landing
    decreases at.len(),
{
    proof {
        law_parent_is_shorter(at);
    }
    match (host.canonical)(at) {
        Some(lead) => followed(host, Way::start(lead, rest)),
        None => match parent(at) {
            Some(above) if components(at).len() > 0 => climbed(
                host,
                above,
                rest.push(components(at).last()),
            ),
            _ => Landing::Lost,
        },
    }
}

/// On a steady host a trace leads where the path leads, whatever its state.
pub proof fn law_trace_leads_on(t: Trace, reply: Reply, next: TraceProgress, host: SteadyHost)
    requires
        trace_goes_on(t, reply, next),
        host.gives(t.ask(), reply),
    ensures
        match next {
            Progress::Waiting(u) => u.outcome(host) == t.outcome(host),
            Progress::Finished(d) => d@ == t.outcome(host),
        },
{
}

/// With every reply, whatever the host replies, a trace comes nearer to its end.
pub proof fn law_trace_comes_to_end(t: Trace, reply: Reply, next: TraceProgress)
    requires
        trace_goes_on(t, reply, next),
        t.is_bounded(),
    ensures
        next matches Progress::Waiting(u) ==> u.is_bounded() && ({
            let (a, b) = (u.distance(), t.distance());
            a.0 < b.0 || (a.0 == b.0 && (a.1 < b.1 || (a.1 == b.1 && a.2 < b.2)))
        }),
{
    match (t, reply) {
        (Trace::Climbing { at, rest }, Reply::Path(lead)) => {
            lemma_turn_comes_nearer(Way::start(lead@, byte_texts(rest@)));
        },
        (Trace::Climbing { at, rest }, _) => {
            law_parent_is_shorter(at@);
        },
        (Trace::Looking { descent, .. }, Reply::Path(lead)) => {
            lemma_turn_comes_nearer(descent@.found(lead@));
        },
        (Trace::Linking { descent, .. }, Reply::Path(points_to)) => {
            lemma_turn_comes_nearer(descent@.linked(points_to@));
        },
        (Trace::Linking { descent, place }, _) => {
            lemma_turn_comes_nearer(descent@.down(place@));
        },
        _ => {},
    }
}

/// How a trace begins once a resolution has come to `path`: there is none where the path
/// exists, and where it does not, the trace goes on from what the resolution has found.
pub open spec fn begins_trace(r: Resolution, reply: Reply, path: Seq<u8>, t: Option<Trace>) -> bool {
    match (r, reply) {
        (Resolution::Candidate { .. }, Reply::Path(_)) => t is None,
        (Resolution::Missing { name, .. }, Reply::Path(dir)) => t matches Some(
            Trace::Linking { descent, place },
        ) && descent@ == Way::start(dir@, seq![]) && place@ == join(dir@, name@),
        _ => t matches Some(Trace::Climbing { at, rest }) && at@ == path && rest@.len() == 0,
    }
}

/// What a resolution has found of a path.
pub enum Approach {
    /// The path exists.
    Found,
    /// The directory of the path exists, and the trace goes on from there.
    Beside(Trace),
    /// Nothing is known of it.
    Unknown,
}

impl Approach {
    /// What a resolution finds with a reply.
    pub fn of(r: &Resolution, reply: &Reply) -> (a: Approach)
        ensures
            match a {
                Approach::Found => r is Candidate && reply is Path,
                Approach::Beside(t) => {
                    &&& *r matches Resolution::Missing { name, .. }
                    &&& *reply matches Reply::Path(dir)
                    &&& t matches Trace::Linking { descent, place }
                    &&& descent@ == Way::start(dir@, seq![])
                    &&& place@ == join(dir@, name@)
                },
                Approach::Unknown => r is Relative || reply !is Path,
            },
    {
        match (r, reply) {
            (Resolution::Candidate { .. }, Reply::Path(_)) => Approach::Found,
            (Resolution::Missing { name, .. }, Reply::Path(dir)) => Approach::Beside(
                Trace::beside(dir, name),
            ),
            _ => Approach::Unknown,
        }
    }

    /// The trace that goes on from there.
    pub fn trace(self, path: &Vec<u8>) -> (t: Option<Trace>)
        ensures
            match self {
                Approach::Found => t is None,
                Approach::Beside(u) => t == Some(u),
                Approach::Unknown => t matches Some(Trace::Climbing { at, rest }) && at@ == path@
                    && rest@.len() == 0,
            },
    {
        match self {
            Approach::Found => None,
            Approach::Beside(t) => Some(t),
            Approach::Unknown => Some(Trace::climbing(path)),
        }
    }
}

/// Where the missing file `name` below `above` leads on a steady host.
pub open spec fn missing_landing(host: SteadyHost, above: Seq<u8>, name: Seq<u8>) -> Landing {
    match (host.canonical)(above) {
        Some(dir) => linked(host, Way::start(dir, seq![]), join(dir, name)),
        None => climbed(host, join(above, name), seq![]),
    }
}

/// Where `candidate` leads on a steady host, where it does not exist.
pub open spec fn candidate_landing(host: SteadyHost, candidate: Seq<u8>) -> Option<Landing> {
    match (host.canonical)(candidate) {
        Some(_) => None,
        None => Some(
            match (parent(candidate), file_name(candidate)) {
                (Some(above), Some(last)) => missing_landing(host, above, last),
                _ => climbed(host, candidate, seq![]),
            },
        ),
    }
}

/// Where `path` leads on a steady host, where it does not exist.
pub open spec fn landing_of(host: SteadyHost, path: Seq<u8>) -> Option<Landing> {
    if is_absolute(path) {
        candidate_landing(host, path)
    } else {
        match host.current_dir {
            Some(dir) => candidate_landing(host, join(dir, path)),
            None => None,
        }
    }
}

/// Where the path that is being resolved leads on a steady host, where it does not exist.
pub open spec fn landing_on(r: Resolution, host: SteadyHost) -> Option<Landing> {
    match r {
        Resolution::Relative { path, .. } => landing_of(host, path@),
        Resolution::Candidate { path, .. } => candidate_landing(host, path@),
        Resolution::Missing { parent, name } => Some(missing_landing(host, parent@, name@)),
    }
}

/// On a steady host, a resolution keeps to where its path leads, and so does the trace that
/// begins once it has come to its end.
pub proof fn law_trace_follows_resolution(
    r: Resolution,
    reply: Reply,
    next: ResolutionProgress,
    host: SteadyHost,
)
    requires
        resolution_goes_on(r, reply, next),
        host.gives(r.ask(), reply),
        r matches Resolution::Relative { path, .. } ==> !is_absolute(path@),
    ensures
        match next {
            Progress::Waiting(s) => landing_on(s, host) == landing_on(r, host),
            Progress::Finished(Ok(path)) => forall|t: Option<Trace>| #[trigger]
                begins_trace(r, reply, path@, t) ==> match t {
                    None => landing_on(r, host) is None,
                    Some(u) => landing_on(r, host) == Some(u.outcome(host)) && u.is_bounded(),
                },
            Progress::Finished(Err(_)) => true,
        },
{
    if let Progress::Finished(Ok(path)) = next {
        assert forall|t: Option<Trace>| #[trigger] begins_trace(r, reply, path@, t) implies match t {
            None => landing_on(r, host) is None,
            Some(u) => landing_on(r, host) == Some(u.outcome(host)) && u.is_bounded(),
        } by {
            if let Some(Trace::Climbing { rest, .. }) = t {
                assert(byte_texts(rest@) =~= seq![]);
            }
        }
    }
}

/// The path `p` of the host leads to `lead`.
pub open spec fn is_lead(host: SteadyHost, p: Seq<u8>, lead: Seq<u8>) -> bool {
    (host.canonical)(p) == Some(lead)
}

/// A path of the host leads to `p`.
pub open spec fn is_resolved(p: Seq<u8>, host: SteadyHost) -> bool {
    exists|candidate: Seq<u8>| #[trigger] is_lead(host, candidate, p)
}

/// All of them are names that go down.
pub open spec fn all_go_down(names: Seq<Seq<u8>>) -> bool {
    forall|i: int| 0 <= i < names.len() ==> is_name(#[trigger] names[i]) && !goes_up(names[i])
}

/// `p` is `dir`, which a path of the host leads to, with `names` put below it, which go
/// down.
pub open spec fn is_put_below(
    p: Seq<u8>,
    dir: Seq<u8>,
    names: Seq<Seq<u8>>,
    host: SteadyHost,
) -> bool {
    &&& is_resolved(dir, host)
    &&& all_go_down(names)
    &&& components(p) == components(dir) + names
}

/// `p` is a path that was resolved with names put below it that go down, if any.
pub open spec fn is_grounded(p: Seq<u8>, host: SteadyHost) -> bool {
    exists|dir: Seq<u8>, names: Seq<Seq<u8>>| #[trigger] is_put_below(p, dir, names, host)
}

/// All of the paths are grounded.
pub open spec fn all_grounded(paths: Seq<Seq<u8>>, host: SteadyHost) -> bool {
    forall|i: int| 0 <= i < paths.len() ==> is_grounded(#[trigger] paths[i], host)
}

/// Where a path leads is grounded, and so is all that is missing on the way.
pub open spec fn lands_on_ground(l: Landing, host: SteadyHost) -> bool {
    l matches Landing::At(end, met) ==> is_grounded(end, host) && all_grounded(met, host)
}

/// All of them are components.
spec fn are_parts(cs: Seq<Seq<u8>>) -> bool {
    forall|i: int|
        0 <= i < cs.len() ==> is_name(#[trigger] cs[i]) || cs[i] == seq![SLASH] || cs[i]
            == seq![DOT]
}

/// The way was followed on ground.
spec fn is_on_ground(w: Way, host: SteadyHost) -> bool {
    &&& is_resolved(w.lead, host)
    &&& all_grounded(w.spots, host)
    &&& all_grounded(w.met, host)
    &&& are_parts(w.rest)
}

proof fn lemma_resolved_is_grounded(p: Seq<u8>, host: SteadyHost)
    requires
        is_resolved(p, host),
    ensures
        is_grounded(p, host),
{
    let none = Seq::<Seq<u8>>::empty();
    assert(components(p) =~= components(p) + none);
    assert(is_put_below(p, p, none, host));
}

proof fn lemma_name_below_is_grounded(at: Seq<u8>, c: Seq<u8>, host: SteadyHost)
    requires
        is_grounded(at, host),
        is_name(c),
        !goes_up(c),
    ensures
        is_grounded(join(at, c), host),
{
    let (dir, names) = choose|dir: Seq<u8>, names: Seq<Seq<u8>>| #[trigger]
        is_put_below(at, dir, names, host);
    law_join_appends_name(at, c);
    assert(components(join(at, c)) =~= components(dir) + names.push(c));
    assert(is_put_below(join(at, c), dir, names.push(c), host));
}

proof fn lemma_turn_is_on_ground(w: Way, host: SteadyHost)
    requires
        is_on_ground(w, host),
    ensures
        match w.turn() {
            Turn::Look(v, place, down) => is_on_ground(v, host) && (down ==> is_grounded(
                place,
                host,
            )),
            Turn::End(end, met) => is_grounded(end, host) && all_grounded(met, host),
        },
    decreases w.rest.len(),
{
    lemma_resolved_is_grounded(w.lead, host);
    assert(is_grounded(w.at(), host)) by {
        if w.spots.len() > 0 {
            assert(is_grounded(w.spots[w.spots.len() - 1], host));
        }
    }
    if w.rest.len() > 0 {
        let c = w.rest.last();
        let on = Way { rest: w.rest.drop_last(), ..w };
        assert(is_name(w.rest[w.rest.len() - 1]) || c == seq![SLASH] || c == seq![DOT]);
        assert(are_parts(on.rest)) by {
            assert forall|i: int| 0 <= i < on.rest.len() implies is_name(#[trigger] on.rest[i])
                || on.rest[i] == seq![SLASH] || on.rest[i] == seq![DOT] by {
                assert(on.rest[i] == w.rest[i]);
            }
        }
        if c == seq![DOT] {
            lemma_turn_is_on_ground(on, host);
        } else if w.spots.len() == 0 || c == seq![SLASH] {
            if goes_down(c) {
                lemma_name_below_is_grounded(w.lead, c, host);
            }
        } else if goes_up(c) {
            let up = Way { spots: w.spots.drop_last(), ..on };
            assert forall|i: int| 0 <= i < up.spots.len() implies is_grounded(
                #[trigger] up.spots[i],
                host,
            ) by {
                assert(up.spots[i] == w.spots[i]);
            }
            lemma_turn_is_on_ground(up, host);
        } else {
            lemma_name_below_is_grounded(w.at(), c, host);
            lemma_down_is_on_ground(on, join(w.at(), c), host);
            lemma_turn_is_on_ground(on.down(join(w.at(), c)), host);
        }
    }
}

proof fn lemma_down_is_on_ground(w: Way, spot: Seq<u8>, host: SteadyHost)
    requires
        is_on_ground(w, host),
        is_grounded(spot, host),
    ensures
        is_on_ground(w.down(spot), host),
{
    let v = w.down(spot);
    assert forall|i: int| 0 <= i < v.spots.len() implies is_grounded(#[trigger] v.spots[i], host) by {
        if i < w.spots.len() {
            assert(v.spots[i] == w.spots[i]);
        }
    }
    assert forall|i: int| 0 <= i < v.met.len() implies is_grounded(#[trigger] v.met[i], host) by {
        if i < w.met.len() {
            assert(v.met[i] == w.met[i]);
        }
    }
}

proof fn lemma_followed_lands_on_ground(host: SteadyHost, w: Way)
    requires
        is_on_ground(w, host),
    ensures
        lands_on_ground(followed(host, w), host),
    decreases w.links, w.rest.len(), 0int,
{
    lemma_turn_comes_nearer(w);
    lemma_turn_is_on_ground(w, host);
    if let Turn::Look(v, place, down) = w.turn() {
        match (host.canonical)(place) {
            Some(lead) => {
                assert(is_lead(host, place, lead));
                lemma_followed_lands_on_ground(host, v.found(lead));
            },
            None => {
                if down {
                    lemma_linked_lands_on_ground(host, v, place);
                }
            },
        }
    }
}

proof fn lemma_linked_lands_on_ground(host: SteadyHost, w: Way, place: Seq<u8>)
    requires
        is_on_ground(w, host),
        is_grounded(place, host),
    ensures
        lands_on_ground(linked(host, w, place), host),
    decreases w.links, w.rest.len(), 1int,
{
    match (host.link)(place) {
        Some(points_to) => {
            if w.links > 0 {
                let v = w.linked(points_to);
                let cs = components(points_to);
                law_components_are_names(points_to);
                assert forall|i: int| 0 <= i < v.rest.len() implies is_name(#[trigger] v.rest[i])
                    || v.rest[i] == seq![SLASH] || v.rest[i] == seq![DOT] by {
                    if i < w.rest.len() {
                        assert(v.rest[i] == w.rest[i]);
                    } else {
                        assert(v.rest[i] == cs[cs.len() - 1 - (i - w.rest.len())]);
                    }
                }
                lemma_followed_lands_on_ground(host, v);
            }
        },
        None => {
            lemma_down_is_on_ground(w, place, host);
            lemma_followed_lands_on_ground(host, w.down(place));
        },
    }
}

/// However a path that does not exist is taken apart, where it leads on a steady host is a
/// path that was resolved with names put below it that go down, if any; and so is all that
/// is missing on the way.
pub proof fn law_climbed_path_lands_on_ground(host: SteadyHost, at: Seq<u8>, rest: Seq<Seq<u8>>)
    requires
        forall|i: int|
            0 <= i < rest.len() ==> is_name(#[trigger] rest[i]) || rest[i] == seq![SLASH]
                || rest[i] == seq![DOT],
    ensures
        lands_on_ground(climbed(host, at, rest), host),
    decreases at.len(),
{
    match (host.canonical)(at) {
        Some(lead) => {
            assert(is_lead(host, at, lead));
            lemma_followed_lands_on_ground(host, Way::start(lead, rest));
        },
        None => {
            if let Some(above) = parent(at) {
                if components(at).len() > 0 {
                    law_parent_is_shorter(at);
                    law_components_are_names(at);
                    let cs = components(at);
                    assert(is_name(cs[cs.len() - 1]) || cs.last() == seq![SLASH] || cs.last()
                        == seq![DOT]);
                    law_climbed_path_lands_on_ground(host, above, rest.push(cs.last()));
                }
            }
        },
    }
}

/// Where a path that does not exist leads on a steady host is a path that was resolved with
/// names put below it that go down, if any; and so is all that is missing on the way.
pub proof fn law_path_lands_on_ground(host: SteadyHost, path: Seq<u8>)
    ensures
        landing_of(host, path) matches Some(l) ==> lands_on_ground(l, host),
{
    let none = Seq::<Seq<u8>>::empty();
    let candidate = if is_absolute(path) {
        path
    } else {
        join(host.current_dir->Some_0, path)
    };
    law_climbed_path_lands_on_ground(host, candidate, none);
    law_file_name_is_name(candidate);
    if let (Some(above), Some(last)) = (parent(candidate), file_name(candidate)) {
        law_climbed_path_lands_on_ground(host, join(above, last), none);
        if let Some(dir) = (host.canonical)(above) {
            assert(is_lead(host, above, dir));
            lemma_resolved_is_grounded(dir, host);
            lemma_name_below_is_grounded(dir, last, host);
            lemma_linked_lands_on_ground(host, Way::start(dir, none), join(dir, last));
        }
    }
}

/// A new file in a directory that exists lands there, and is all that is missing. Where a link
/// stands in its place, it lands where the link points to, seen from the directory.
pub proof fn law_new_file_lands_in_its_directory(
    host: SteadyHost,
    path: Seq<u8>,
    above: Seq<u8>,
    name: Seq<u8>,
    dir: Seq<u8>,
)
    requires
        is_absolute(path),
        (host.canonical)(path) is None,
        parent(path) == Some(above),
        file_name(path) == Some(name),
        (host.canonical)(above) == Some(dir),
    ensures
        (host.link)(join(dir, name)) is None ==> landing_of(host, path) == Some(
            Landing::At(join(dir, name), seq![join(dir, name)]),
        ),
        (host.link)(join(dir, name)) matches Some(points_to) ==> landing_of(host, path) == Some(
            followed(
                host,
                Way {
                    lead: dir,
                    spots: seq![],
                    met: seq![],
                    links: 63,
                    rest: components(points_to).reverse(),
                },
            ),
        ),
{
    let none = Seq::<Seq<u8>>::empty();
    let spot = join(dir, name);
    let w = Way::start(dir, none);
    assert(none + components((host.link)(spot)->Some_0).reverse() =~= components(
        (host.link)(spot)->Some_0,
    ).reverse());
    assert(w.down(spot).met =~= seq![spot]);
    assert(w.down(spot).spots =~= seq![spot]);
}

/// On the way of a path, a component that exists leads where the host says it does; below
/// what is missing, names go down and `..` goes up again, and nothing is asked of the host.
pub proof fn law_way_goes_as_components_say(host: SteadyHost, w: Way, c: Seq<u8>, lead: Seq<u8>)
    requires
        is_name(c),
    ensures
        followed(host, Way { rest: seq![], ..w }) == Landing::At(w.at(), w.met),
        w.spots.len() == 0 && (host.canonical)(join(w.lead, c)) == Some(lead) ==> followed(
            host,
            Way { rest: w.rest.push(c), ..w },
        ) == followed(host, Way { lead, spots: seq![], ..w }),
        w.spots.len() > 0 && c != seq![46u8, 46u8] ==> followed(
            host,
            Way { rest: w.rest.push(c), ..w },
        ) == followed(host, w.down(join(w.spots.last(), c))),
        w.spots.len() > 0 ==> followed(host, Way { rest: w.rest.push(seq![46u8, 46u8]), ..w })
            == followed(host, Way { spots: w.spots.drop_last(), ..w }),
{
    let v = Way { rest: w.rest.push(c), ..w };
    assert(v.rest.drop_last() =~= w.rest);
    assert(c != seq![DOT]);
    assert(c != seq![SLASH]) by {
        if c == seq![SLASH] {
            assert(c[0] == SLASH);
            assert(c.contains(SLASH));
        }
    }
    let up = seq![DOT, DOT];
    let u = Way { rest: w.rest.push(up), ..w };
    assert(u.rest.drop_last() =~= w.rest);
    assert(up.len() == 2 && seq![DOT].len() == 1 && seq![SLASH].len() == 1);
    if w.spots.len() == 0 {
        assert(w.found(w.lead).spots =~= w.spots);
        assert(v.turn() == Turn::Look(w, join(w.lead, c), goes_down(c))) by {
            let on = Way { rest: v.rest.drop_last(), ..v };
            assert(on == w);
            assert(on.found(w.lead) == w) by {
                assert(on.found(w.lead).spots =~= w.spots);
            }
        }
    } else {
        assert(Way { rest: v.rest.drop_last(), ..v } == w);
        assert(v.at() == w.spots.last());
        assert(v.turn() == w.down(join(w.spots.last(), c)).turn() || c == seq![DOT, DOT]);
        assert(Way { rest: u.rest.drop_last(), ..u } == w);
        assert(u.turn() == Way { spots: w.spots.drop_last(), ..w }.turn());
    }
}

} // verus!
