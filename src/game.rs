//! The session: one body, one apple, the score, the clock and the screen flow.

use vstd::prelude::*;
use crate::geometry::{Vec2, abs, dir_ok, scale_to_spec, lemma_scale_to_near, near_length};
use vstd::arithmetic::div_mod::{lemma_div_is_ordered, lemma_div_multiples_vanish};
use crate::anchor::{Anchor, COORD_LIMIT, in_box, diff, sq_len};
use crate::snake::{
    Snake, MAX_LEN, HEAD_LIMIT, HEAD_REST, GROWTH_RADIUS, STEP, TURN_BIAS, heading, solved, frac,
    lemma_solved_constraint,
};
use crate::random::random_below;

verus! {

/// Width of the play field.
pub const SCREEN_WIDTH: i64 = 1_200_000_000;

/// Height of the play field.
pub const SCREEN_HEIGHT: i64 = 720_000_000;

/// How long a round lasts, in milliseconds.
pub const TIME_LIMIT_MS: u64 = 40_000;

/// Radius of the apple.
pub const APPLE_RADIUS: i64 = 20_000_000;

/// The apple counts as eaten this much before the head touches it.
pub const EAT_MARGIN: i64 = 5_000_000;

/// The anchors nearest the head, which never count as a bite.
pub const SAFE_SEGMENTS: usize = 3;

/// Number of anchors in the starting body.
pub const START_LEN: usize = 12;

/// The screens of a session: intro, a round under way, and its end.
#[derive(Clone, Copy, Debug, PartialEq, Eq, Structural)]
pub enum Screen {
    Logo,
    Play,
    GameOver,
}

/// The target: a circle the head eats.
#[derive(Clone, Copy, Debug, PartialEq, Eq, Structural)]
pub struct Apple {
    pub point: Vec2,
    pub radius: i64,
}

impl Apple {
    pub fn new(point: Vec2, radius: i64) -> (r: Apple)
        ensures
            r.point == point,
            r.radius == radius,
    {
        Apple { point, radius }
    }
}

/// The input of one frame.
#[derive(Clone, Copy, Debug, PartialEq, Eq, Structural)]
pub struct Controls {
    /// Turn left is held.
    pub left: bool,
    /// Turn right is held.
    pub right: bool,
    /// Confirm was pressed this frame.
    pub confirm: bool,
    /// Debug toggle was pressed this frame.
    pub debug: bool,
}

/// Radius of anchor `i` of the starting body.
pub open spec fn start_size(i: int) -> i64 {
    if i == 0 {
        33_000_000
    } else if i == 1 {
        40_000_000
    } else if i == 2 {
        42_000_000
    } else if i == 3 {
        33_000_000
    } else {
        30_000_000
    }
}

/// Sum of the radii of the first `i` anchors of the starting body.
pub open spec fn start_offset(i: nat) -> int
    decreases i,
{
    if i == 0 {
        0
    } else {
        start_offset((i - 1) as nat) + start_size(i - 1)
    }
}

/// The starting body: anchors laid out leftward from `(50, 120)`, each spaced
/// by the radii of those before it.
pub open spec fn template() -> Seq<Anchor> {
    Seq::new(
        START_LEN as nat,
        |i: int|
            Anchor::new_spec(
                Vec2 { x: (50_000_000 - start_offset(i as nat)) as i64, y: 120_000_000 },
                start_size(i),
            ),
    )
}

pub open spec fn in_field(p: Vec2) -> bool {
    0 <= p.x <= SCREEN_WIDTH && 0 <= p.y <= SCREEN_HEIGHT
}

/// The head is at least its own radius inside every edge of the field.
pub open spec fn head_inside(h: Anchor) -> bool {
    h.distance <= h.point.x <= SCREEN_WIDTH - h.distance && h.distance <= h.point.y
        <= SCREEN_HEIGHT - h.distance
}

/// The head is close enough to eat the apple: their gap, less the margin,
/// is below the sum of their radii.
pub open spec fn reaches(head: Anchor, apple: Apple) -> bool {
    let k = head.distance + apple.radius + EAT_MARGIN;
    sq_len(diff(head.point, apple.point)) < k * k
}

/// The circles of two anchors overlap.
pub open spec fn touches(head: Anchor, other: Anchor) -> bool {
    let k = head.distance + other.distance;
    sq_len(diff(head.point, other.point)) < k * k
}

/// The head overlaps some anchor past the first three.
pub open spec fn bites(body: Seq<Anchor>) -> bool {
    exists|k: int| SAFE_SEGMENTS <= k < body.len() && #[trigger] touches(body[0], body[k])
}

pub open spec fn clamp_spec(v: int, lo: int, hi: int) -> int {
    if v < lo { lo } else if v > hi { hi } else { v }
}

/// The head moved inside the field.
pub open spec fn clamped_head(h: Anchor) -> Anchor {
    Anchor {
        point: Vec2 {
            x: clamp_spec(h.point.x as int, h.distance as int, SCREEN_WIDTH - h.distance) as i64,
            y: clamp_spec(h.point.y as int, h.distance as int, SCREEN_HEIGHT - h.distance) as i64,
        },
        ..h
    }
}

/// The time of a round started at `start` has run out at `now`.
pub open spec fn expired(start: u64, now: u64) -> bool {
    now >= start && now - start >= TIME_LIMIT_MS
}

/// The body after its head has taken one step.
pub open spec fn stepped(body: Seq<Anchor>, left: bool, right: bool) -> Seq<Anchor> {
    let s = scale_to_spec(heading(body[1], left, right), STEP as int);
    body.update(
        0,
        Anchor {
            point: Vec2 { x: (body[0].point.x + s.0) as i64, y: (body[0].point.y + s.1) as i64 },
            ..body[0]
        },
    )
}

/// A body that has eaten grows by an anchor of the growth radius on its tail.
pub open spec fn grown(body: Seq<Anchor>) -> Seq<Anchor> {
    body.push(Anchor::new_spec(body.last().point, GROWTH_RADIUS))
}

/// One session of play.
pub struct Game {
    /// Apples eaten this round.
    pub score: u64,
    /// Which screen is showing.
    pub screen: Screen,
    /// Whether anchors are drawn for debugging; kept across rounds.
    pub debug: bool,
    pub apple: Apple,
    pub snake: Snake,
    /// The starting body, kept for restarts.
    pub body: Vec<Anchor>,
    /// When the current round began, in milliseconds of the host's clock.
    pub start: u64,
}

/// A point drawn at random in the field.
pub fn random_field_point() -> (r: Vec2)
    ensures
        0 <= r.x < SCREEN_WIDTH,
        0 <= r.y < SCREEN_HEIGHT,
{
    let x = random_below(SCREEN_WIDTH as u64) as i64;
    let y = random_below(SCREEN_HEIGHT as u64) as i64;
    Vec2 { x, y }
}

fn start_size_at(i: usize) -> (r: i64)
    ensures
        r == start_size(i as int),
{
    if i == 0 {
        33_000_000
    } else if i == 1 {
        40_000_000
    } else if i == 2 {
        42_000_000
    } else if i == 3 {
        33_000_000
    } else {
        30_000_000
    }
}

/// The starting body.
pub fn template_body() -> (r: Vec<Anchor>)
    ensures
        r@ == template(),
{
    let mut body: Vec<Anchor> = Vec::with_capacity(20);
    let mut sum: i64 = 0;
    let mut i: usize = 0;
    while i < START_LEN
        invariant
            i <= START_LEN,
            sum == start_offset(i as nat),
            0 <= sum <= 42_000_000 * i,
            body@ =~= template().take(i as int),
        decreases START_LEN - i,
    {
        let size = start_size_at(i);
        body.push(Anchor::new(Vec2 { x: 50_000_000 - sum, y: 120_000_000 }, size));
        sum = sum + size;
        i = i + 1;
        assert(body@ =~= template().take(i as int));
    }
    assert(template().take(START_LEN as int) =~= template());
    body
}

/// Squared distance between two points.
fn sq_dist(a: Vec2, b: Vec2) -> (r: i128)
    requires
        in_box(a, COORD_LIMIT as int),
        in_box(b, COORD_LIMIT as int),
    ensures
        r == sq_len(diff(a, b)),
{
    let dx = (a.x - b.x) as i128;
    let dy = (a.y - b.y) as i128;
    assert(dx * dx <= 0x800_0000_0000i128 * 0x800_0000_0000i128) by (nonlinear_arith)
        requires
            -0x800_0000_0000i128 <= dx <= 0x800_0000_0000i128,
    ;
    assert(dy * dy <= 0x800_0000_0000i128 * 0x800_0000_0000i128) by (nonlinear_arith)
        requires
            -0x800_0000_0000i128 <= dy <= 0x800_0000_0000i128,
    ;
    assert(dx * dx >= 0 && dy * dy >= 0) by (nonlinear_arith);
    dx * dx + dy * dy
}

/// Whether the circles of two anchors overlap.
fn anchors_touch(head: &Anchor, other: &Anchor) -> (r: bool)
    requires
        head.wf(),
        other.wf(),
    ensures
        r == touches(*head, *other),
{
    let k = (head.distance + other.distance) as i128;
    assert(k * k <= 200_000_000 * 200_000_000) by (nonlinear_arith)
        requires
            0 <= k <= 200_000_000,
    ;
    sq_dist(head.point, other.point) < k * k
}

impl Game {
    /// The invariant within a tick: the head may be anywhere within reach.
    pub open spec fn frame_ok(self) -> bool {
        &&& self.snake.chain_ok(HEAD_LIMIT as int)
        &&& self.body@ == template()
        &&& self.snake.body.len() == self.body.len() + self.score
        &&& self.apple.radius == APPLE_RADIUS
        &&& in_field(self.apple.point)
    }

    /// The invariant between ticks.
    pub open spec fn wf(self) -> bool {
        &&& self.frame_ok()
        &&& self.snake.wf()
        &&& head_inside(self.snake.body[0])
    }

    /// A session on its intro screen, with the starting body and an apple at random.
    pub fn new() -> (r: Game)
        ensures
            r.wf(),
            r.score == 0,
            r.screen == Screen::Logo,
            !r.debug,
            r.snake.body@ == template(),
            r.start == 0,
    {
        let body = template_body();
        let point = random_field_point();
        let apple = Apple::new(point, APPLE_RADIUS);
        let snake = Snake::from_body(template_body());
        let g = Game { score: 0, screen: Screen::Logo, debug: false, apple, snake, body, start: 0 };
        proof { lemma_template_ok(); }
        g
    }

    /// Whether the head is close enough to eat the apple.
    pub fn apple_reached(&self) -> (r: bool)
        requires
            self.frame_ok(),
        ensures
            r == reaches(self.snake.body[0], self.apple),
    {
        let head = self.snake.body[0];
        assert(head.wf());
        let k = (head.distance + self.apple.radius + EAT_MARGIN) as i128;
        assert(k * k <= 200_000_000 * 200_000_000) by (nonlinear_arith)
            requires
                0 <= k <= 200_000_000,
        ;
        sq_dist(head.point, self.apple.point) < k * k
    }

    /// Eat the apple if the head reaches it and the body has room to grow:
    /// grow by one tail anchor, move the apple to `respawn`, and score a point.
    pub fn try_apple_at(&mut self, respawn: Vec2)
        requires
            old(self).frame_ok(),
            in_field(respawn),
        ensures
            final(self).frame_ok(),
            final(self).screen == old(self).screen,
            final(self).debug == old(self).debug,
            final(self).start == old(self).start,
            final(self).body == old(self).body,
            if reaches(old(self).snake.body[0], old(self).apple) && old(self).snake.body.len() < MAX_LEN {
                &&& final(self).snake.body@ == grown(old(self).snake.body@)
                &&& final(self).apple.point == respawn
                &&& final(self).apple.radius == old(self).apple.radius
                &&& final(self).score == old(self).score + 1
            } else {
                &&& final(self).snake == old(self).snake
                &&& final(self).apple == old(self).apple
                &&& final(self).score == old(self).score
            },
    {
        if self.apple_reached() && self.snake.body.len() < MAX_LEN {
            let tail = self.snake.body[self.snake.body.len() - 1];
            assert(tail.wf());
            self.snake.grow(tail.point);
            self.apple.point = respawn;
            self.score = self.score + 1;
            assert forall|k: int| 0 <= k < self.snake.body.len() implies #[trigger] self.snake.body[k].wf() by {
                if k < old(self).snake.body.len() {
                    assert(self.snake.body[k] == old(self).snake.body[k]);
                }
            }
        }
    }

    /// Eat the apple if the head reaches it and the body has room to grow;
    /// the apple then moves to a random point of the field.
    pub fn try_apple(&mut self)
        requires
            old(self).frame_ok(),
        ensures
            final(self).frame_ok(),
            final(self).screen == old(self).screen,
            final(self).debug == old(self).debug,
            final(self).start == old(self).start,
            final(self).body == old(self).body,
            if reaches(old(self).snake.body[0], old(self).apple) && old(self).snake.body.len() < MAX_LEN {
                &&& final(self).snake.body@ == grown(old(self).snake.body@)
                &&& final(self).apple.radius == old(self).apple.radius
                &&& final(self).score == old(self).score + 1
            } else {
                &&& final(self).snake == old(self).snake
                &&& final(self).apple == old(self).apple
                &&& final(self).score == old(self).score
            },
    {
        if self.apple_reached() && self.snake.body.len() < MAX_LEN {
            let p = random_field_point();
            self.try_apple_at(p);
        }
    }

    /// End the round if the head overlaps any anchor past the first three.
    pub fn oroboros(&mut self)
        requires
            old(self).snake.chain_ok(HEAD_LIMIT as int),
        ensures
            final(self).screen == (if bites(old(self).snake.body@) { Screen::GameOver } else { old(self).screen }),
            *final(self) == (Game { screen: final(self).screen, ..*old(self) }),
    {
        let head = self.snake.body[0];
        assert(head.wf());
        let n = self.snake.body.len();
        let mut i: usize = SAFE_SEGMENTS;
        while i < n
            invariant
                n == self.snake.body.len(),
                SAFE_SEGMENTS <= i,
                i <= n || i == SAFE_SEGMENTS,
                head == self.snake.body[0],
                self.snake.chain_ok(HEAD_LIMIT as int),
                *self == (Game { screen: self.screen, ..*old(self) }),
                self.screen == (if (exists|k: int| SAFE_SEGMENTS <= k < i && #[trigger] touches(head, self.snake.body[k])) {
                    Screen::GameOver
                } else {
                    old(self).screen
                }),
            decreases n - i,
        {
            let tail = self.snake.body[i];
            assert(tail.wf());
            if anchors_touch(&head, &tail) {
                self.screen = Screen::GameOver;
            }
            proof {
                if touches(head, self.snake.body[i as int]) {
                    assert(exists|k: int| SAFE_SEGMENTS <= k < i + 1 && #[trigger] touches(head, self.snake.body[k]));
                } else {
                    assert((exists|k: int| SAFE_SEGMENTS <= k < i + 1 && #[trigger] touches(head, self.snake.body[k]))
                        == (exists|k: int| SAFE_SEGMENTS <= k < i && #[trigger] touches(head, self.snake.body[k])));
                }
            }
            i = i + 1;
        }
        if n < SAFE_SEGMENTS {
            assert(!bites(old(self).snake.body@));
            assert(!(exists|k: int| SAFE_SEGMENTS <= k < i && #[trigger] touches(head, self.snake.body[k])));
        } else {
            assert(i == n);
            assert(bites(old(self).snake.body@) == (exists|k: int| SAFE_SEGMENTS <= k < i && #[trigger] touches(head, self.snake.body[k])));
        }
    }

    /// Keep the head at least its own radius inside every edge of the field.
    pub fn clamp(&mut self)
        requires
            old(self).snake.chain_ok(HEAD_LIMIT as int),
        ensures
            final(self).snake.body@ == old(self).snake.body@.update(0, clamped_head(old(self).snake.body[0])),
            final(self).snake.wf(),
            head_inside(final(self).snake.body[0]),
            *final(self) == (Game { snake: final(self).snake, ..*old(self) }),
    {
        let mut h = self.snake.body[0];
        assert(h.wf());
        let d = h.distance;
        if h.point.x < d {
            h.point.x = d;
        } else if h.point.x > SCREEN_WIDTH - d {
            h.point.x = SCREEN_WIDTH - d;
        }
        if h.point.y < d {
            h.point.y = d;
        } else if h.point.y > SCREEN_HEIGHT - d {
            h.point.y = SCREEN_HEIGHT - d;
        }
        self.snake.body.set(0, h);
        assert forall|k: int| 0 <= k < self.snake.body.len() implies #[trigger] self.snake.body[k].wf() by {
            if k > 0 {
                assert(self.snake.body[k] == old(self).snake.body[k]);
            }
        }
    }

    /// On the intro screen: confirm starts the round at `now`.
    pub fn logo(&mut self, confirm: bool, now: u64)
        ensures
            confirm ==> *final(self) == (Game { screen: Screen::Play, start: now, ..*old(self) }),
            !confirm ==> *final(self) == *old(self),
    {
        if confirm {
            self.start = now;
            self.screen = Screen::Play;
        }
    }

    /// Start a new round at `now`: score zero, the starting body again, and
    /// the apple at `apple_point`.
    pub fn restart(&mut self, now: u64, apple_point: Vec2)
        requires
            old(self).wf(),
            in_field(apple_point),
        ensures
            final(self).wf(),
            final(self).score == 0,
            final(self).screen == Screen::Play,
            final(self).snake.body@ == template(),
            final(self).start == now,
            final(self).apple == (Apple { point: apple_point, ..old(self).apple }),
            final(self).debug == old(self).debug,
            final(self).body == old(self).body,
    {
        self.score = 0;
        self.screen = Screen::Play;
        let body = self.body.clone();
        assert(body@ =~= self.body@);
        self.snake = Snake::from_body(body);
        self.start = now;
        self.apple.point = apple_point;
        proof { lemma_template_ok(); }
    }

    /// On the game-over screen: confirm starts a new round at `now`, with the
    /// apple at a random point of the field.
    pub fn game_over(&mut self, confirm: bool, now: u64)
        requires
            old(self).wf(),
        ensures
            final(self).wf(),
            confirm ==> {
                &&& final(self).score == 0
                &&& final(self).screen == Screen::Play
                &&& final(self).snake.body@ == template()
                &&& final(self).start == now
                &&& final(self).debug == old(self).debug
                &&& final(self).body == old(self).body
            },
            !confirm ==> *final(self) == *old(self),
    {
        if confirm {
            let p = random_field_point();
            self.restart(now, p);
        }
    }

    /// Whether the head eats the apple on a tick with this input.
    pub open spec fn eats(self, input: Controls) -> bool {
        let s1 = stepped(self.snake.body@, input.left, input.right);
        reaches(s1[0], self.apple) && s1.len() < MAX_LEN
    }

    /// What one tick of a round makes of `self`, given its input and the time.
    pub open spec fn played(self, next: Game, input: Controls, now: u64) -> bool {
        &&& next.debug == (self.debug != input.debug)
        &&& next.body == self.body
        &&& next.start == self.start
        &&& next.score == self.score + (if self.eats(input) { 1int } else { 0int })
        &&& next.snake.body.len() == self.snake.body.len() + (if self.eats(input) { 1int } else { 0int })
        &&& !self.eats(input) ==> next.apple == self.apple
        &&& ({
            let s1 = stepped(self.snake.body@, input.left, input.right);
            let s2 = if self.eats(input) { grown(s1) } else { s1 };
            exists|mid: Seq<Anchor>|
                solved(s2, mid) && next.snake.body@ == #[trigger] mid.update(0, clamped_head(mid[0]))
        })
        &&& next.screen == (if bites(next.snake.body@) || expired(self.start, now) {
            Screen::GameOver
        } else {
            self.screen
        })
    }

    /// One tick of a round: toggle debug, step the head, eat, solve the body,
    /// keep the head inside the field, and end the round on a bite or when
    /// time has run out at `now`.
    pub fn play(&mut self, input: Controls, now: u64)
        requires
            old(self).wf(),
        ensures
            final(self).wf(),
            old(self).played(*final(self), input, now),
    {
        if input.debug {
            self.debug = !self.debug;
        }
        self.snake.input(input.left, input.right);
        assert(self.snake.body@ =~= stepped(old(self).snake.body@, input.left, input.right));
        self.try_apple();
        let ghost s2 = self.snake.body@;
        self.snake.update();
        let ghost mid = self.snake.body@;
        assert(solved(s2, mid));
        self.clamp();
        assert(self.snake.body@ == mid.update(0, clamped_head(mid[0])));
        self.oroboros();
        self.timer(now);
        assert(exists|m: Seq<Anchor>| solved(s2, m) && self.snake.body@ == #[trigger] m.update(0, clamped_head(m[0])));
    }

    /// Advance the session by one frame, as its screen decides.
    pub fn step(&mut self, input: Controls, now: u64)
        requires
            old(self).wf(),
        ensures
            final(self).wf(),
            old(self).screen == Screen::Logo && input.confirm ==> *final(self) == (Game {
                screen: Screen::Play,
                start: now,
                ..*old(self)
            }),
            old(self).screen == Screen::Logo && !input.confirm ==> *final(self) == *old(self),
            old(self).screen == Screen::GameOver && input.confirm ==> {
                &&& final(self).score == 0
                &&& final(self).screen == Screen::Play
                &&& final(self).snake.body@ == template()
                &&& final(self).start == now
                &&& final(self).debug == old(self).debug
                &&& final(self).body == old(self).body
            },
            old(self).screen == Screen::GameOver && !input.confirm ==> *final(self) == *old(self),
            old(self).screen == Screen::Play ==> old(self).played(*final(self), input, now),
    {
        match self.screen {
            Screen::Logo => self.logo(input.confirm, now),
            Screen::Play => self.play(input, now),
            Screen::GameOver => self.game_over(input.confirm, now),
        }
    }

    /// End the round once its time has run out at `now`.
    pub fn timer(&mut self, now: u64)
        ensures
            final(self).screen == (if expired(old(self).start, now) { Screen::GameOver } else { old(self).screen }),
            *final(self) == (Game { screen: final(self).screen, ..*old(self) }),
    {
        if now >= self.start && now - self.start >= TIME_LIMIT_MS {
            self.screen = Screen::GameOver;
        }
    }
}

/// A share of at most one of a value is no larger than the value.
proof fn lemma_frac_bound(c: int, num: int, den: int)
    requires
        0 <= num <= den,
        den > 0,
    ensures
        abs(frac(c, num, den)) <= abs(c),
{
    let a = abs(c);
    assert(0 <= a * num <= a * den) by (nonlinear_arith)
        requires
            a >= 0,
            0 <= num <= den,
    ;
    lemma_div_is_ordered(a * num, a * den, den);
    lemma_div_multiples_vanish(a, den);
    assert(a * den == den * a) by (nonlinear_arith);
    lemma_div_is_ordered(0, a * num, den);
}

/// Turning never changes the step: the head moves `STEP` within `TOLERANCE`,
/// whatever keys are held.
pub proof fn lemma_step_length(body: Seq<Anchor>, left: bool, right: bool)
    requires
        body.len() >= 2,
        body[0].wf(),
        body[1].wf(),
        in_box(body[0].point, HEAD_REST as int),
    ensures
        near_length(sq_len(diff(stepped(body, left, right)[0].point, body[0].point)), STEP as int),
        abs(stepped(body, left, right)[0].point.x - body[0].point.x) <= STEP,
        abs(stepped(body, left, right)[0].point.y - body[0].point.y) <= STEP,
{
    lemma_frac_bound(body[1].rhs.x as int, TURN_BIAS as int, 100);
    lemma_frac_bound(body[1].rhs.y as int, TURN_BIAS as int, 100);
    let h = heading(body[1], left, right);
    assert(dir_ok(h));
    lemma_scale_to_near(h, STEP as int);
}

/// A head resting on the apple's centre eats it on the next tick, whatever
/// keys are held, as long as the body has room to grow.
pub proof fn lemma_head_on_apple_eats(g: Game, input: Controls)
    requires
        g.wf(),
        g.snake.body[0].point == g.apple.point,
        g.snake.body.len() < MAX_LEN,
    ensures
        g.eats(input),
{
    let body = g.snake.body@;
    assert(body[0].wf() && body[1].wf());
    lemma_step_length(body, input.left, input.right);
    let s1 = stepped(body, input.left, input.right);
    let d = diff(s1[0].point, g.apple.point);
    let k = s1[0].distance + g.apple.radius + EAT_MARGIN;
    assert(k >= 25_000_000);
    assert(sq_len(d) < k * k) by (nonlinear_arith)
        requires
            -7_500_000 <= d.x <= 7_500_000,
            -7_500_000 <= d.y <= 7_500_000,
            k >= 25_000_000,
    ;
}

/// After a tick of a round, every link from the second follower on has the
/// length its parent's radius asks for, within `TOLERANCE`. (The first link
/// may be stretched by the head's clamp to the field.)
pub proof fn lemma_played_links(g: Game, next: Game, input: Controls, now: u64, k: int)
    requires
        g.wf(),
        next.wf(),
        g.played(next, input, now),
        2 <= k < next.snake.body.len(),
    ensures
        near_length(
            sq_len(diff(next.snake.body[k].point, next.snake.body[k - 1].point)),
            next.snake.body[k - 1].distance as int,
        ),
{
    let s1 = stepped(g.snake.body@, input.left, input.right);
    let s2 = if g.eats(input) { grown(s1) } else { s1 };
    let mid = choose|mid: Seq<Anchor>|
        solved(s2, mid) && next.snake.body@ == #[trigger] mid.update(0, clamped_head(mid[0]));
    assert(mid[k] == next.snake.body[k] && mid[k - 1] == next.snake.body[k - 1]);
    assert(next.snake.body[k].wf() && next.snake.body[k - 1].wf());
    let n = g.snake.body.len() as int;
    if k < n {
        assert(s2[k] == g.snake.body[k]);
        assert(g.snake.body[k].wf());
    } else {
        assert(g.snake.body[n - 1].wf());
        assert(s2[k] == Anchor::new_spec(g.snake.body[n - 1].point, GROWTH_RADIUS));
    }
    lemma_solved_constraint(s2, mid, k);
}

/// The two anchors right behind the head never end a round: replacing either
/// of them does not change whether the head bites.
pub proof fn lemma_front_segments_exempt(body: Seq<Anchor>, k: int, a: Anchor)
    requires
        1 <= k < SAFE_SEGMENTS,
        k < body.len(),
    ensures
        bites(body.update(k, a)) == bites(body),
{
    let b = body.update(k, a);
    if bites(body) {
        let j = choose|j: int| SAFE_SEGMENTS <= j < body.len() && #[trigger] touches(body[0], body[j]);
        assert(b[j] == body[j] && b[0] == body[0]);
        assert(touches(b[0], b[j]));
    }
    if bites(b) {
        let j = choose|j: int| SAFE_SEGMENTS <= j < b.len() && #[trigger] touches(b[0], b[j]);
        assert(b[j] == body[j] && b[0] == body[0]);
        assert(touches(body[0], body[j]));
    }
}

/// The body only ever grows by eating: between ticks it is as long as the
/// starting body plus one anchor per point scored.
pub proof fn lemma_length_counts_score(g: Game)
    requires
        g.wf(),
    ensures
        g.snake.body.len() == START_LEN + g.score,
        g.snake.body.len() >= START_LEN,
{
}

/// The starting body is a well-formed body whose head lies inside the field.
pub proof fn lemma_template_ok()
    ensures
        template().len() == START_LEN,
        head_inside(template()[0]),
        forall|k: int| 0 <= k < START_LEN ==> (#[trigger] template()[k]).wf(),
{
    assert forall|k: int| 0 <= k < START_LEN implies (#[trigger] template()[k]).wf() by {
        lemma_start_offset_bounds(k as nat);
    }
}

proof fn lemma_start_offset_bounds(i: nat)
    ensures
        0 <= start_offset(i) <= 42_000_000 * i,
    decreases i,
{
    if i > 0 {
        lemma_start_offset_bounds((i - 1) as nat);
    }
}

} // verus!
