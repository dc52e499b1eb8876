use vstd::prelude::*;
use vstd::utf8::encode_utf8;
use crate::input::{InputState, KEY_A, KEY_Z, KEY_BACK, KEY_RETURN, KEY_SPACE, KEY_R};
use crate::leaderboard::{Leaderboard, with_entry, is_high, sorted_desc, sort_desc, str_upper, lemma_sort_desc, TABLE_SIZE};
use crate::text::{push_char, pop_char};
use crate::waves::{WaveType, kind_of_wave};

verus! {

/// The screens of the game.
#[derive(Clone, Copy, PartialEq, Eq, Structural, Debug)]
pub enum GameState {
    StartScreen,
    Playing,
    NameEntry,
    GameOver,
}

/// The overlay drawn on top of a screen.
#[derive(Clone, Copy, PartialEq, Eq, Structural, Debug)]
pub enum Overlay {
    /// The title, the prompt to start, and the ship.
    StartMenu,
    /// The prompt for a name and the name typed so far.
    NameEntry,
    /// The game-over banner and the high-score table.
    GameOver,
}

/// The overlay of each screen: none while playing.
pub open spec fn overlay_of(state: GameState) -> Option<Overlay> {
    match state {
        GameState::StartScreen => Some(Overlay::StartMenu),
        GameState::Playing => None,
        GameState::NameEntry => Some(Overlay::NameEntry),
        GameState::GameOver => Some(Overlay::GameOver),
    }
}

impl GameState {
    /// Whether the screen shows the play field (enemies, bombs, beams,
    /// sparks, the ship) and the heads-up display: every screen but the
    /// start screen does.
    pub fn shows_play_field(&self) -> (r: bool)
        ensures
            r == (*self != GameState::StartScreen),
    {
        match self {
            GameState::StartScreen => false,
            _ => true,
        }
    }

    /// The overlay drawn on this screen (see `overlay_of`).
    pub fn overlay(&self) -> (r: Option<Overlay>)
        ensures
            r == overlay_of(*self),
    {
        match self {
            GameState::StartScreen => Some(Overlay::StartMenu),
            GameState::Playing => None,
            GameState::NameEntry => Some(Overlay::NameEntry),
            GameState::GameOver => Some(Overlay::GameOver),
        }
    }
}

/// The lives a new game starts with.
pub const START_LIVES: u32 = 3;

/// The longest name the player can type for the high-score table, in bytes.
pub const NAME_LEN: usize = 3;

/// What the game loop has to do after a frame's decisions.
#[derive(Clone, Copy, PartialEq, Eq, Structural, Debug)]
pub enum FlowAction {
    /// Nothing beyond drawing.
    Stay,
    /// A new game began: put the ship back, deploy the first (classic)
    /// wave, clear shots and sparks.
    Restart,
    /// The game goes on: move the ship and let it fire; deploy a new wave of
    /// the given kind when there is one.
    Play(Option<WaveType>),
    /// The high-score table changed: write it to the score file.
    SaveScores,
}

/// The length in bytes of a name, as `str::len` reports it.
pub open spec fn name_bytes(name: Seq<char>) -> usize {
    encode_utf8(name).len() as usize
}

/// The letter a letter key types (`A` for `KEY_A` and so on).
pub open spec fn key_letter(key: u32) -> char {
    ((65 + key - KEY_A) as u8) as char
}

/// The name after the letter keys from `key` to `KEY_Z` are handled in
/// order: each freshly pressed one adds its letter while the name is shorter
/// than three bytes.
pub open spec fn typed(name: Seq<char>, fresh: Set<u32>, key: u32) -> Seq<char>
    decreases KEY_Z + 1 - key,
{
    if key > KEY_Z {
        name
    } else {
        let next = if fresh.contains(key) && name_bytes(name) < NAME_LEN {
            name.push(key_letter(key))
        } else {
            name
        };
        typed(next, fresh, (key + 1) as u32)
    }
}

/// The name after a frame of name entry: letters typed, then one character
/// taken off if backspace was pressed.
pub open spec fn edited_name(name: Seq<char>, fresh: Set<u32>) -> Seq<char> {
    let t = typed(name, fresh, KEY_A);
    if fresh.contains(KEY_BACK) && t.len() > 0 {
        t.drop_last()
    } else {
        t
    }
}

/// Whether the keys from `KEY_A` up to (not including) `key` are letter
/// keys.
pub open spec fn letter_keys_below(key: u32) -> Set<u32> {
    Set::new(|k: u32| KEY_A <= k < key)
}

/// The game's flow as the contracts see it.
pub struct FlowModel {
    pub state: GameState,
    pub score: u32,
    pub lives: u32,
    pub wave_count: u32,
    pub name: Seq<char>,
    pub table: Seq<(Seq<char>, u32)>,
}

/// A fresh game in the same table: playing, no score, three lives, wave one.
pub open spec fn restarted(m: FlowModel) -> FlowModel {
    FlowModel { state: GameState::Playing, score: 0, lives: START_LIVES, wave_count: 1, ..m }
}

/// The keys whose fresh presses a frame uses up on the given screen.
pub open spec fn keys_used(state: GameState) -> Set<u32> {
    match state {
        GameState::StartScreen => set![KEY_SPACE],
        GameState::Playing => set![KEY_R],
        GameState::NameEntry => letter_keys_below((KEY_Z + 1) as u32).insert(KEY_BACK).insert(KEY_RETURN),
        GameState::GameOver => set![KEY_R],
    }
}

/// One frame of the game's flow: the model after the frame and what the
/// game loop has to do, given the keys freshly pressed, whether the ship is
/// still in play and whether the current wave is wiped out.
///
/// On the start screen, space starts a game. While playing, `R` restarts;
/// otherwise a wiped-out wave brings the next one, and when no lives are
/// left and the ship is gone the game ends: on the name-entry screen (with
/// an empty name) when the score earns a place in the table, else on the
/// game-over screen. On the name-entry screen keys edit the name, and
/// return with three bytes of name enters the score. On the game-over
/// screen `R` restarts.
pub open spec fn next_flow(m: FlowModel, fresh: Set<u32>, ship_active: bool, wave_extinct: bool) -> (
    FlowModel,
    FlowAction,
) {
    match m.state {
        GameState::StartScreen => if fresh.contains(KEY_SPACE) {
            (restarted(m), FlowAction::Restart)
        } else {
            (m, FlowAction::Stay)
        },
        GameState::Playing => if fresh.contains(KEY_R) {
            (restarted(m), FlowAction::Restart)
        } else {
            let wc = if wave_extinct {
                (m.wave_count + 1) as u32
            } else {
                m.wave_count
            };
            let next = if wave_extinct {
                Some(kind_of_wave(wc))
            } else {
                None
            };
            let m1 = FlowModel { wave_count: wc, ..m };
            let m2 = if m.lives == 0 && !ship_active {
                if is_high(m.table, m.score) {
                    FlowModel { name: seq![], state: GameState::NameEntry, ..m1 }
                } else {
                    FlowModel { state: GameState::GameOver, ..m1 }
                }
            } else {
                m1
            };
            (m2, FlowAction::Play(next))
        },
        GameState::NameEntry => {
            let name = edited_name(m.name, fresh);
            if fresh.contains(KEY_RETURN) && name_bytes(name) == NAME_LEN {
                (
                    FlowModel {
                        name,
                        table: with_entry(m.table, name, m.score),
                        state: GameState::GameOver,
                        ..m
                    },
                    FlowAction::SaveScores,
                )
            } else {
                (FlowModel { name, ..m }, FlowAction::Stay)
            }
        },
        GameState::GameOver => if fresh.contains(KEY_R) {
            (restarted(m), FlowAction::Restart)
        } else {
            (m, FlowAction::Stay)
        },
    }
}

/// The game's flow between its screens: the current screen, the score and
/// lives, the wave number, the name being typed, and the high-score table.
pub struct GameFlow {
    pub state: GameState,
    pub score: u32,
    pub lives: u32,
    pub wave_count: u32,
    pub name_input: String,
    pub leaderboard: Leaderboard,
}

impl View for GameFlow {
    type V = FlowModel;

    open spec fn view(&self) -> FlowModel {
        FlowModel {
            state: self.state,
            score: self.score,
            lives: self.lives,
            wave_count: self.wave_count,
            name: self.name_input@,
            table: self.leaderboard@,
        }
    }
}

impl GameFlow {
    /// A game on its start screen with the given high-score table.
    pub fn new(leaderboard: Leaderboard) -> (r: Self)
        ensures
            r.state == GameState::StartScreen,
            r.score == 0,
            r.lives == START_LIVES,
            r.wave_count == 1,
            r.name_input@ == Seq::<char>::empty(),
            r.leaderboard@ == leaderboard@,
    {
        GameFlow {
            state: GameState::StartScreen,
            score: 0,
            lives: START_LIVES,
            wave_count: 1,
            name_input: String::new(),
            leaderboard,
        }
    }

    /// Starts a new game: three lives, the first wave, no score, playing.
    pub fn reset(&mut self)
        ensures
            final(self).state == GameState::Playing,
            final(self).score == 0,
            final(self).lives == START_LIVES,
            final(self).wave_count == 1,
            final(self).name_input@ == old(self).name_input@,
            final(self).leaderboard@ == old(self).leaderboard@,
    {
        self.lives = START_LIVES;
        self.wave_count = 1;
        self.score = 0;
        self.state = GameState::Playing;
    }

    /// Moves on to the next wave and says which kind it is: every third
    /// wave swoops.
    pub fn transition_wave(&mut self) -> (r: WaveType)
        requires
            old(self).wave_count < u32::MAX,
        ensures
            final(self).wave_count == old(self).wave_count + 1,
            r == kind_of_wave(final(self).wave_count),
            final(self).state == old(self).state,
            final(self).score == old(self).score,
            final(self).lives == old(self).lives,
            final(self).name_input@ == old(self).name_input@,
            final(self).leaderboard@ == old(self).leaderboard@,
    {
        self.wave_count = self.wave_count + 1;
        WaveType::for_wave(self.wave_count)
    }

    /// The ship was destroyed: one life less (never below zero). Says
    /// whether the ship comes back, that is whether lives remain.
    pub fn destroy_ship(&mut self) -> (r: bool)
        ensures
            final(self).lives == if old(self).lives > 0 {
                (old(self).lives - 1) as u32
            } else {
                0
            },
            r == (final(self).lives > 0),
            final(self).state == old(self).state,
            final(self).score == old(self).score,
            final(self).wave_count == old(self).wave_count,
            final(self).name_input@ == old(self).name_input@,
            final(self).leaderboard@ == old(self).leaderboard@,
    {
        self.lives = self.lives.saturating_sub(1);
        self.lives != 0
    }

    /// An enemy was shot down: while playing, five points for one that was
    /// diving and one point otherwise; on the other screens nothing.
    pub fn award_kill(&mut self, was_diving: bool)
        requires
            old(self).state == GameState::Playing ==> old(self).score + (if was_diving {
                5int
            } else {
                1int
            }) <= u32::MAX,
        ensures
            final(self).score == if old(self).state == GameState::Playing {
                old(self).score + if was_diving {
                    5u32
                } else {
                    1u32
                }
            } else {
                old(self).score as int
            },
            final(self).state == old(self).state,
            final(self).lives == old(self).lives,
            final(self).wave_count == old(self).wave_count,
            final(self).name_input@ == old(self).name_input@,
            final(self).leaderboard@ == old(self).leaderboard@,
    {
        if self.state == GameState::Playing {
            self.score = self.score + if was_diving {
                5
            } else {
                1
            };
        }
    }

    /// A volley's kills, in order (see `award_kill`): while playing, the
    /// score grows by their points (see `kill_points`); on the other screens
    /// nothing changes.
    pub fn award_kills(&mut self, diving: &[bool])
        requires
            old(self).state == GameState::Playing ==> old(self).score + kill_points(diving@) <= u32::MAX,
        ensures
            final(self).score == if old(self).state == GameState::Playing {
                old(self).score + kill_points(diving@)
            } else {
                old(self).score as int
            },
            final(self).state == old(self).state,
            final(self).lives == old(self).lives,
            final(self).wave_count == old(self).wave_count,
            final(self).name_input@ == old(self).name_input@,
            final(self).leaderboard@ == old(self).leaderboard@,
    {
        let mut i: usize = 0;
        assert(diving@.take(0) =~= Seq::<bool>::empty());
        while i < diving.len()
            invariant
                i <= diving@.len(),
                self.state == old(self).state,
                self.lives == old(self).lives,
                self.wave_count == old(self).wave_count,
                self.name_input@ == old(self).name_input@,
                self.leaderboard@ == old(self).leaderboard@,
                old(self).state == GameState::Playing ==> old(self).score + kill_points(diving@) <= u32::MAX,
                self.score == if old(self).state == GameState::Playing {
                    old(self).score + kill_points(diving@.take(i as int))
                } else {
                    old(self).score as int
                },
            decreases diving@.len() - i,
        {
            proof {
                lemma_kill_points_grow(diving@, i + 1);
                assert(diving@.take(i + 1).drop_last() =~= diving@.take(i as int));
            }
            self.award_kill(diving[i]);
            i = i + 1;
        }
        assert(diving@.take(i as int) =~= diving@);
    }

    /// A frame of name entry. Each freshly pressed letter key, from `A` to
    /// `Z`, adds its letter while the name is shorter than three bytes;
    /// backspace takes the last character off; return with a name of three
    /// bytes enters the name and score in the high-score table and moves to
    /// the game-over screen. The presses of these keys are used up. Says
    /// whether the table changed.
    pub fn update_name_entry(&mut self, input: &mut InputState) -> (r: bool)
        ensures
            final(self).name_input@ == edited_name(old(self).name_input@, old(input)@.1),
            r == (old(input)@.1.contains(KEY_RETURN) && name_bytes(final(self).name_input@) == NAME_LEN),
            r ==> final(self).leaderboard@ == with_entry(
                old(self).leaderboard@,
                final(self).name_input@,
                old(self).score,
            ) && final(self).state == GameState::GameOver,
            !r ==> final(self).leaderboard@ == old(self).leaderboard@ && final(self).state == old(self).state,
            final(self).score == old(self).score,
            final(self).lives == old(self).lives,
            final(self).wave_count == old(self).wave_count,
            final(input)@ == (
                old(input)@.0,
                old(input)@.1.difference(letter_keys_below((KEY_Z + 1) as u32)).remove(KEY_BACK).remove(KEY_RETURN),
            ),
    {
        let ghost fresh = input@.1;
        let ghost start = self.name_input@;
        let mut key: u32 = KEY_A;
        assert(fresh.difference(letter_keys_below(KEY_A)) =~= fresh);
        while key <= KEY_Z
            invariant
                KEY_A <= key <= KEY_Z + 1,
                typed(self.name_input@, fresh, key) == typed(start, fresh, KEY_A),
                input@.0 == old(input)@.0,
                input@.1 == fresh.difference(letter_keys_below(key)),
                fresh == old(input)@.1,
                self.score == old(self).score,
                self.lives == old(self).lives,
                self.wave_count == old(self).wave_count,
                self.state == old(self).state,
                self.leaderboard@ == old(self).leaderboard@,
            decreases KEY_Z + 1 - key,
        {
            let ghost cur = self.name_input@;
            let pressed = input.was_key_pressed(key);
            assert(fresh.difference(letter_keys_below(key)).contains(key) == fresh.contains(key));
            if pressed {
                if self.name_input.as_str().len() < NAME_LEN {
                    let letter = (65u8 + (key - KEY_A) as u8) as char;
                    push_char(&mut self.name_input, letter);
                }
            }
            assert(input@.1 =~= fresh.difference(letter_keys_below((key + 1) as u32)));
            assert(typed(cur, fresh, key) == typed(self.name_input@, fresh, (key + 1) as u32));
            key = key + 1;
        }
        if input.was_key_pressed(KEY_BACK) {
            pop_char(&mut self.name_input);
        }
        let enter = input.was_key_pressed(KEY_RETURN);
        assert(!letter_keys_below((KEY_Z + 1) as u32).contains(KEY_BACK));
        assert(!letter_keys_below((KEY_Z + 1) as u32).contains(KEY_RETURN));
        if enter && self.name_input.as_str().len() == NAME_LEN {
            let name = self.name_input.clone();
            self.leaderboard.add_entry(name, self.score);
            self.state = GameState::GameOver;
            return true;
        }
        false
    }

    /// The decisions of one frame (see `next_flow`). The fresh presses of
    /// the keys the current screen reads are used up; the game loop clears
    /// the rest at the end of the frame, after moving the ship.
    pub fn step(&mut self, input: &mut InputState, ship_active: bool, wave_extinct: bool) -> (r: FlowAction)
        requires
            old(self).state == GameState::Playing && !old(input)@.1.contains(KEY_R) && wave_extinct
                ==> old(self).wave_count < u32::MAX,
        ensures
            (final(self)@, r) == next_flow(old(self)@, old(input)@.1, ship_active, wave_extinct),
            final(input)@ == (old(input)@.0, old(input)@.1.difference(keys_used(old(self).state))),
    {
        let ghost fresh = input@.1;
        match self.state {
            GameState::StartScreen => {
                let go = input.was_key_pressed(KEY_SPACE);
                assert(fresh.remove(KEY_SPACE) =~= fresh.difference(keys_used(GameState::StartScreen)));
                if go {
                    self.reset();
                    FlowAction::Restart
                } else {
                    FlowAction::Stay
                }
            },
            GameState::Playing => {
                let restart = input.was_key_pressed(KEY_R);
                assert(fresh.remove(KEY_R) =~= fresh.difference(keys_used(GameState::Playing)));
                if restart {
                    self.reset();
                    return FlowAction::Restart;
                }
                let next = if wave_extinct {
                    Some(self.transition_wave())
                } else {
                    None
                };
                if self.lives == 0 && !ship_active {
                    if self.leaderboard.is_high_score(self.score) {
                        self.name_input = String::new();
                        self.state = GameState::NameEntry;
                    } else {
                        self.state = GameState::GameOver;
                    }
                }
                FlowAction::Play(next)
            },
            GameState::NameEntry => {
                let saved = self.update_name_entry(input);
                assert(fresh.difference(letter_keys_below((KEY_Z + 1) as u32)).remove(KEY_BACK).remove(KEY_RETURN)
                    =~= fresh.difference(keys_used(GameState::NameEntry)));
                if saved {
                    FlowAction::SaveScores
                } else {
                    FlowAction::Stay
                }
            },
            GameState::GameOver => {
                let restart = input.was_key_pressed(KEY_R);
                assert(fresh.remove(KEY_R) =~= fresh.difference(keys_used(GameState::GameOver)));
                if restart {
                    self.reset();
                    FlowAction::Restart
                } else {
                    FlowAction::Stay
                }
            },
        }
    }
}

/// Whether a typed name is sound: plain ASCII and at most three characters.
pub open spec fn name_ok(name: Seq<char>) -> bool {
    vstd::utf8::is_ascii_chars(name) && name.len() <= NAME_LEN
}

proof fn lemma_ascii_bytes(name: Seq<char>)
    requires
        vstd::utf8::is_ascii_chars(name),
        name.len() <= 8,
    ensures
        name_bytes(name) == name.len(),
{
    vstd::utf8::is_ascii_chars_encode_utf8(name);
}

proof fn lemma_typed_ok(name: Seq<char>, fresh: Set<u32>, key: u32)
    requires
        name_ok(name),
        KEY_A <= key,
    ensures
        name_ok(typed(name, fresh, key)),
    decreases KEY_Z + 1 - key,
{
    if key <= KEY_Z {
        lemma_ascii_bytes(name);
        let next = if fresh.contains(key) && name_bytes(name) < NAME_LEN {
            name.push(key_letter(key))
        } else {
            name
        };
        assert(vstd::utf8::is_ascii_chars(next)) by {
            if next != name {
                assert forall|i: int| 0 <= i < next.len() implies (#[trigger] next[i]) as u32 <= 0x7f by {
                    if i < name.len() {
                        assert(next[i] == name[i]);
                    }
                }
            }
        }
        lemma_typed_ok(next, fresh, (key + 1) as u32);
    }
}

/// A typed name stays plain ASCII and never grows beyond three characters,
/// whatever keys are pressed and whatever screen the game is on.
pub proof fn lemma_name_stays_short(m: FlowModel, fresh: Set<u32>, ship_active: bool, wave_extinct: bool)
    requires
        name_ok(m.name),
    ensures
        name_ok(next_flow(m, fresh, ship_active, wave_extinct).0.name),
{
    if m.state == GameState::NameEntry {
        lemma_typed_ok(m.name, fresh, KEY_A);
        let t = typed(m.name, fresh, KEY_A);
        if t.len() > 0 {
            assert(vstd::utf8::is_ascii_chars(t.drop_last())) by {
                assert forall|i: int| 0 <= i < t.drop_last().len() implies (#[trigger] t.drop_last()[i]) as u32
                    <= 0x7f by {
                    assert(t.drop_last()[i] == t[i]);
                }
            }
        }
    }
    if m.state == GameState::Playing {
        assert(vstd::utf8::is_ascii_chars(Seq::<char>::empty()));
    }
}

/// The high-score table only changes when a name is entered; it stays
/// sorted best first and then holds at most five entries, the new one
/// having exactly three bytes of name.
pub proof fn lemma_table_changes(m: FlowModel, fresh: Set<u32>, ship_active: bool, wave_extinct: bool)
    requires
        sorted_desc(m.table),
    ensures
        ({
            let (n, a) = next_flow(m, fresh, ship_active, wave_extinct);
            &&& sorted_desc(n.table)
            &&& a != FlowAction::SaveScores ==> n.table == m.table
            &&& a == FlowAction::SaveScores ==> {
                &&& n.table == with_entry(m.table, n.name, m.score)
                &&& n.table.len() <= TABLE_SIZE
                &&& name_bytes(n.name) == NAME_LEN
            }
        }),
{
    let (n, a) = next_flow(m, fresh, ship_active, wave_extinct);
    if a == FlowAction::SaveScores {
        let t = m.table.push((str_upper(n.name), m.score));
        lemma_sort_desc(t);
        let sorted = sort_desc(t);
        if sorted.len() > TABLE_SIZE {
            assert(sorted_desc(sorted.take(TABLE_SIZE as int)));
        }
    }
}

/// Leaving play for the name-entry or game-over screen happens only when
/// no lives are left and the ship is gone; and the name-entry screen is
/// reached exactly when the score earns a place in the table.
pub proof fn lemma_game_ends(m: FlowModel, fresh: Set<u32>, ship_active: bool, wave_extinct: bool)
    requires
        m.state == GameState::Playing,
    ensures
        ({
            let n = next_flow(m, fresh, ship_active, wave_extinct).0;
            &&& (n.state == GameState::NameEntry || n.state == GameState::GameOver) ==> m.lives == 0 && !ship_active
                && !fresh.contains(KEY_R)
            &&& n.state == GameState::NameEntry <==> (!fresh.contains(KEY_R) && m.lives == 0 && !ship_active
                && is_high(m.table, m.score))
        }),
{
}

/// Every restart begins a fresh game: playing, no score, three lives, the
/// first wave; the table and the typed name stay as they were.
pub proof fn lemma_restart_is_fresh(m: FlowModel, fresh: Set<u32>, ship_active: bool, wave_extinct: bool)
    ensures
        next_flow(m, fresh, ship_active, wave_extinct).1 == FlowAction::Restart ==> next_flow(
            m,
            fresh,
            ship_active,
            wave_extinct,
        ).0 == restarted(m),
{
}

/// Whether every character of a name is a capital letter `A` to `Z`.
pub open spec fn capitals_only(name: Seq<char>) -> bool {
    forall|i: int| 0 <= i < name.len() ==> 'A' <= #[trigger] name[i] && name[i] <= 'Z'
}

proof fn lemma_typed_capitals(name: Seq<char>, fresh: Set<u32>, key: u32)
    requires
        capitals_only(name),
        KEY_A <= key,
    ensures
        capitals_only(typed(name, fresh, key)),
    decreases KEY_Z + 1 - key,
{
    if key <= KEY_Z {
        let next = if fresh.contains(key) && name_bytes(name) < NAME_LEN {
            name.push(key_letter(key))
        } else {
            name
        };
        assert(capitals_only(next)) by {
            if next != name {
                assert('A' <= key_letter(key) && key_letter(key) <= 'Z');
                assert forall|i: int| 0 <= i < next.len() implies 'A' <= #[trigger] next[i] && next[i] <= 'Z' by {
                    if i < name.len() {
                        assert(next[i] == name[i]);
                    }
                }
            }
        }
        lemma_typed_capitals(next, fresh, (key + 1) as u32);
    }
}

/// A typed name holds only the capital letters `A` to `Z`, whatever keys
/// are pressed and whatever screen the game is on: letter keys type
/// capitals, backspace only takes characters off, and leaving play starts
/// from an empty name.
pub proof fn lemma_name_stays_capitals(m: FlowModel, fresh: Set<u32>, ship_active: bool, wave_extinct: bool)
    requires
        capitals_only(m.name),
    ensures
        capitals_only(next_flow(m, fresh, ship_active, wave_extinct).0.name),
{
    if m.state == GameState::NameEntry {
        lemma_typed_capitals(m.name, fresh, KEY_A);
        let t = typed(m.name, fresh, KEY_A);
        if t.len() > 0 {
            assert forall|i: int| 0 <= i < t.drop_last().len() implies 'A' <= #[trigger] t.drop_last()[i]
                && t.drop_last()[i] <= 'Z' by {
                assert(t.drop_last()[i] == t[i]);
            }
        }
    }
}

/// The points for a run of kills: five for each enemy that was diving, one
/// for each other.
pub open spec fn kill_points(diving: Seq<bool>) -> int
    decreases diving.len(),
{
    if diving.len() == 0 {
        0
    } else {
        kill_points(diving.drop_last()) + if diving.last() {
            5int
        } else {
            1int
        }
    }
}

proof fn lemma_kill_points_grow(diving: Seq<bool>, i: int)
    requires
        0 <= i <= diving.len(),
    ensures
        0 <= kill_points(diving.take(i)) <= kill_points(diving),
    decreases diving.len() - i,
{
    if i < diving.len() {
        lemma_kill_points_grow(diving, i + 1);
        lemma_kill_points_nonneg(diving.take(i));
        assert(diving.take(i + 1).drop_last() =~= diving.take(i));
    } else {
        assert(diving.take(i) =~= diving);
        lemma_kill_points_nonneg(diving);
    }
}

proof fn lemma_kill_points_nonneg(diving: Seq<bool>)
    ensures
        kill_points(diving) >= 0,
    decreases diving.len(),
{
    if diving.len() > 0 {
        lemma_kill_points_nonneg(diving.drop_last());
    }
}

} // verus!
