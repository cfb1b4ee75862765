use vstd::prelude::*;
use crate::high_score_table::{
    HighScoreTable, ScoreLine, clock_seconds, final_entries_for, keep_top, new_line, renamed,
    sort_by_score,
};

verus! {

/// `String::truncate` on an ASCII string: keeps its first `new_len`
/// characters, and leaves it alone when it has no more.  On ASCII text every
/// byte index is a character boundary, so the call does not panic.
#[verifier::external_body]
fn truncate_ascii(text: &mut String, new_len: usize)
    requires
        old(text).is_ascii(),
    ensures
        final(text)@ == if new_len < old(text)@.len() {
            old(text)@.take(new_len as int)
        } else {
            old(text)@
        },
{
    text.truncate(new_len)
}

/// A key that went down on the end screen.
pub enum KeyPress {
    Return,
    Space,
    Backspace,
    /// Any other key, by its name.
    Named(String),
}

/// A key press, with the name of a named key as characters.
pub enum KeyView {
    Return,
    Space,
    Backspace,
    Named(Seq<char>),
}

impl View for KeyPress {
    type V = KeyView;

    open spec fn view(&self) -> KeyView {
        match self {
            KeyPress::Return => KeyView::Return,
            KeyPress::Space => KeyView::Space,
            KeyPress::Backspace => KeyView::Backspace,
            KeyPress::Named(name) => KeyView::Named(name@),
        }
    }
}

/// The name being typed, whether typing ended, and whether space asked for
/// another game.
pub struct Typing {
    pub typed: Seq<char>,
    pub done: bool,
    pub space: bool,
}

/// What one key does to the typing; `entering` tells whether a new line of
/// the table waits for its name.
pub open spec fn key_step(t: Typing, key: KeyView, entering: bool) -> Typing {
    match key {
        KeyView::Return => Typing { done: true, ..t },
        KeyView::Space => Typing { typed: t.typed.push(' '), space: t.space || !entering, ..t },
        KeyView::Backspace => if t.typed.len() > 0 {
            Typing { typed: t.typed.drop_last(), ..t }
        } else {
            t
        },
        KeyView::Named(name) => if name.len() == 1 && vstd::utf8::is_ascii_chars(name) {
            Typing { typed: t.typed + name, ..t }
        } else {
            t
        },
    }
}

/// The typing after `keys`, in order.
pub open spec fn type_keys(t: Typing, keys: Seq<KeyView>, entering: bool) -> Typing
    decreases keys.len(),
{
    if keys.len() == 0 {
        t
    } else {
        key_step(type_keys(t, keys.drop_last(), entering), keys.last(), entering)
    }
}

/// How a line of the table is coloured on the end screen.
pub enum RowColour {
    /// The line of the last game, flashing between bright and dim.
    Highlight { bright: bool },
    /// Another line, in the palette colour of this index.
    Palette(usize),
}

/// Number of colours the other lines cycle through.
pub const PALETTE_SIZE: usize = 4;

/// Longest name a line of the table can take.
pub const NAME_LENGTH: usize = 5;

/// The screen after a game: the high score table, and the name of a new
/// line while it is being typed.
pub struct EndScreen {
    high_score_table: HighScoreTable,
    tick: i32,
    flash: usize,
    new_entry: bool,
    keyboard_input: String,
    keyboard_input_done: bool,
    space: bool,
}

impl EndScreen {
    /// The high score table.
    pub closed spec fn table(&self) -> HighScoreTable {
        self.high_score_table
    }

    /// Frames shown.
    pub closed spec fn ticks(&self) -> i32 {
        self.tick
    }

    /// Flashes of the last game's line so far.
    pub closed spec fn flashes(&self) -> usize {
        self.flash
    }

    /// Whether a new line waits for its name.
    pub closed spec fn entering(&self) -> bool {
        self.new_entry
    }

    /// The typing: name so far, whether it ended, and whether Space asked
    /// for another game.
    pub closed spec fn typing(&self) -> Typing {
        Typing { typed: self.keyboard_input@, done: self.keyboard_input_done, space: self.space }
    }

    /// What holds of every end screen: the name typed is ASCII, the counters
    /// are in step, and the table is as the library builds it.
    #[verifier::type_invariant]
    closed spec fn inv(&self) -> bool {
        &&& self.keyboard_input.is_ascii()
        &&& 0 <= self.tick
        &&& self.flash <= self.tick
        &&& self.high_score_table.well_formed()
    }

    pub fn new() -> (screen: EndScreen)
        ensures
            screen.table().newest_id() == 0,
            screen.table().marked_entry() == -1,
            screen.table().entries() == Seq::<ScoreLine>::empty(),
            screen.ticks() == 0,
            screen.flashes() == 0,
            !screen.entering(),
            screen.typing() == (Typing { typed: Seq::empty(), done: true, space: false }),
            screen.table().well_formed(),
    {
        let keyboard_input = String::new();
        proof {
            assert(vstd::utf8::is_ascii_chars(keyboard_input@));
        }
        EndScreen {
            high_score_table: HighScoreTable::new(),
            tick: 0,
            flash: 0,
            new_entry: false,
            keyboard_input,
            keyboard_input_done: true,
            space: false,
        }
    }

    /// Enters the game that just ended, at `now` seconds after the epoch:
    /// when it makes the table, its name is to be typed.
    pub fn game_over_at(&mut self, score: i32, level: i32, now: u64)
        requires
            old(self).table().newest_id() < i32::MAX,
        ensures
            final(self).table().well_formed(),
            final(self).table().newest_id() == old(self).table().newest_id() + 1,
            final(self).table().entries() == keep_top(
                sort_by_score(
                    old(self).table().entries().push(
                        new_line(final(self).table().newest_id(), score, level, now),
                    ),
                ),
            ),
            final(self).entering() == final(self).table().holds_newest(score),
            final(self).table().marked_entry() == if final(self).entering() {
                final(self).table().newest_id()
            } else {
                -1i32
            },
            final(self).typing() == (Typing {
                typed: Seq::empty(),
                done: !final(self).entering(),
                space: false,
            }),
            final(self).ticks() == old(self).ticks(),
            final(self).flashes() == old(self).flashes(),
    {
        proof {
            use_type_invariant(&*self);
        }
        let mut table = HighScoreTable::new();
        std::mem::swap(&mut table, &mut self.high_score_table);
        let entered = table.add_score_at(score, level, now);
        let cleared = String::new();
        proof {
            assert(vstd::utf8::is_ascii_chars(cleared@));
        }
        self.space = false;
        self.keyboard_input = cleared;
        self.new_entry = entered;
        self.keyboard_input_done = !entered;
        self.high_score_table = table;
        proof {
            use_type_invariant(&*self);
        }
    }

    /// Enters the game that just ended, by the system clock; see
    /// `game_over_at`.
    pub fn game_over(&mut self, score: i32, level: i32)
        requires
            old(self).table().newest_id() < i32::MAX,
        ensures
            final(self).table().well_formed(),
            final(self).table().newest_id() == old(self).table().newest_id() + 1,
            exists|now: u64|
                final_entries_for(
                    final(self).table().entries(),
                    old(self).table().entries(),
                    final(self).table().newest_id(),
                    score,
                    level,
                    now,
                ),
            final(self).entering() == final(self).table().holds_newest(score),
            final(self).table().marked_entry() == if final(self).entering() {
                final(self).table().newest_id()
            } else {
                -1i32
            },
            final(self).typing() == (Typing {
                typed: Seq::empty(),
                done: !final(self).entering(),
                space: false,
            }),
            final(self).ticks() == old(self).ticks(),
            final(self).flashes() == old(self).flashes(),
    {
        let now = clock_seconds();
        self.game_over_at(score, level, now);
        assert(final_entries_for(
            self.table().entries(),
            old(self).table().entries(),
            self.table().newest_id(),
            score,
            level,
            now,
        ));
        proof {
            use_type_invariant(&*self);
        }
    }

    /// Types the keys that went down since the last frame, in order:
    /// Return ends the name, Space adds a space (and, when no name is being
    /// typed, asks for another game), Backspace drops the last character, and
    /// a key whose name is a single character adds that character.
    pub fn handle_keyboard(&mut self, keys: &Vec<KeyPress>)
        ensures
            final(self).table().well_formed(),
            final(self).typing() == type_keys(
                old(self).typing(),
                keys@.map_values(|k: KeyPress| k@),
                old(self).entering(),
            ),
            final(self).table() == old(self).table(),
            final(self).ticks() == old(self).ticks(),
            final(self).flashes() == old(self).flashes(),
            final(self).entering() == old(self).entering(),
    {
        proof {
            use_type_invariant(&*self);
        }
        let mut input = String::new();
        proof {
            assert(vstd::utf8::is_ascii_chars(input@));
        }
        std::mem::swap(&mut input, &mut self.keyboard_input);
        let mut done = self.keyboard_input_done;
        let mut space = self.space;
        let entering = self.new_entry;
        let ghost views = keys@.map_values(|k: KeyPress| k@);
        let ghost start = old(self).typing();
        let mut i: usize = 0;
        while i < keys.len()
            invariant
                i <= keys@.len(),
                views == keys@.map_values(|k: KeyPress| k@),
                input.is_ascii(),
                (Typing { typed: input@, done, space }) == type_keys(start, views.take(i as int), entering),
            decreases keys@.len() - i,
        {
            let ghost before = Typing { typed: input@, done, space };
            proof {
                assert(views.take(i + 1).drop_last() =~= views.take(i as int));
                assert(views.take(i + 1).last() == keys@[i as int]@);
            }
            match &keys[i] {
                KeyPress::Return => {
                    done = true;
                },
                KeyPress::Space => {
                    proof {
                        reveal_strlit(" ");
                    }
                    input.append(" ");
                    if !entering {
                        space = true;
                    }
                    assert(input@ =~= before.typed.push(' '));
                },
                KeyPress::Backspace => {
                    // On ASCII text, characters and bytes are one and the same.
                    let len = input.as_str().unicode_len();
                    if len > 0 {
                        truncate_ascii(&mut input, len - 1);
                        assert(input@ =~= before.typed.drop_last());
                    }
                },
                KeyPress::Named(name) => {
                    // A name of a single byte is a single ASCII character.
                    let text = name.as_str();
                    if text.is_ascii() && text.unicode_len() == 1 {
                        input.append(text);
                        assert(input@ =~= before.typed + name@);
                    }
                },
            }
            i += 1;
        }
        assert(views.take(keys@.len() as int) =~= views);
        self.keyboard_input = input;
        self.keyboard_input_done = done;
        self.space = space;
        proof {
            use_type_invariant(&*self);
        }
    }

    /// Moves the screen on by one frame: counts the frame, flashes every 60
    /// frames, and once the name of a new line is finished (Return, or six
    /// characters typed) gives the line its first `NAME_LENGTH` characters.
    pub fn advance_frame(&mut self)
        requires
            old(self).ticks() < i32::MAX,
        ensures
            final(self).table().well_formed(),
            final(self).ticks() == old(self).ticks() + 1,
            final(self).flashes() == old(self).flashes() + if (old(self).ticks() + 1) % 60 == 0 {
                1int
            } else {
                0int
            },
            final(self).typing().done == old(self).typing().done,
            final(self).typing().space == old(self).typing().space,
            final(self).table().newest_id() == old(self).table().newest_id(),
            final(self).table().marked_entry() == old(self).table().marked_entry(),
            if name_finished(old(self).entering(), old(self).typing()) {
                &&& final(self).typing().typed == name_kept(old(self).typing().typed)
                &&& final(self).table().entries() == renamed(
                    old(self).table().entries(),
                    old(self).table().newest_id(),
                    name_kept(old(self).typing().typed),
                )
                &&& !final(self).entering()
            } else {
                &&& final(self).typing() == old(self).typing()
                &&& final(self).table() == old(self).table()
                &&& final(self).entering() == old(self).entering()
            },
    {
        proof {
            use_type_invariant(&*self);
        }
        self.tick = self.tick + 1;
        if self.tick % 60 == 0 {
            self.flash = self.flash + 1;
        }
        if self.new_entry == true {
            if self.keyboard_input_done || self.keyboard_input.as_str().unicode_len() >= 6 {
                let mut input = String::new();
                proof {
                    assert(vstd::utf8::is_ascii_chars(input@));
                }
                std::mem::swap(&mut input, &mut self.keyboard_input);
                truncate_ascii(&mut input, NAME_LENGTH);
                assert(input@ =~= name_kept(old(self).keyboard_input@));
                let mut table = HighScoreTable::new();
                std::mem::swap(&mut table, &mut self.high_score_table);
                table.set_name(&input);
                self.high_score_table = table;
                self.keyboard_input = input;
                self.new_entry = false;
            }
        }
        proof {
            use_type_invariant(&*self);
        }
    }

    /// How line `row` of the table is coloured: the last game's line flashes
    /// (bright on even flashes), the others cycle through the palette.
    pub fn row_colour(&self, row: usize) -> (colour: RowColour)
        requires
            row < self.table().entries().len(),
        ensures
            colour == if self.table().entries()[row as int].id == self.table().newest_id() {
                RowColour::Highlight { bright: self.flashes() % 2 == 0 }
            } else {
                RowColour::Palette(((self.flashes() + row + 1) % (PALETTE_SIZE as int)) as usize)
            },
    {
        let line = self.high_score_table.line(row);
        proof {
            lemma_palette_index(self.flash as int, row as int);
        }
        if self.high_score_table.is_current_score(line.id) {
            RowColour::Highlight { bright: self.flash % 2 == 0 }
        } else {
            RowColour::Palette((self.flash % 4 + row % 4 + 1) % 4)
        }
    }

    /// The high score table.
    pub fn high_score_table(&self) -> (table: &HighScoreTable)
        ensures
            *table == self.table(),
    {
        &self.high_score_table
    }

    /// The name typed so far.
    pub fn keyboard_input(&self) -> (text: &String)
        ensures
            text@ == self.typing().typed,
    {
        &self.keyboard_input
    }

    /// Whether a new line waits for its name.
    pub fn new_entry(&self) -> (entering: bool)
        ensures
            entering == self.entering(),
    {
        self.new_entry
    }

    /// Whether Space asked for another game.
    pub fn space(&self) -> (asked: bool)
        ensures
            asked == self.typing().space,
    {
        self.space
    }

    /// Frames shown.
    pub fn tick(&self) -> (ticks: i32)
        ensures
            ticks == self.ticks(),
    {
        self.tick
    }
}

proof fn lemma_palette_index(flash: int, row: int)
    requires
        0 <= flash,
        0 <= row,
    ensures
        (flash % 4 + row % 4 + 1) % 4 == (flash + row + 1) % 4,
{
    vstd::arithmetic::div_mod::lemma_add_mod_noop(flash, row + 1, 4);
    vstd::arithmetic::div_mod::lemma_add_mod_noop(row, 1, 4);
    vstd::arithmetic::div_mod::lemma_add_mod_noop(flash % 4, row % 4 + 1, 4);
}

/// Whether the name of a new line is finished: Return was pressed, or six
/// characters were typed.
pub open spec fn name_finished(entering: bool, t: Typing) -> bool {
    entering && (t.done || t.typed.len() >= 6)
}

/// The part of a typed name that a line keeps.
pub open spec fn name_kept(typed: Seq<char>) -> Seq<char> {
    if typed.len() > NAME_LENGTH {
        typed.take(NAME_LENGTH as int)
    } else {
        typed
    }
}

} // verus!

verus! {

/// A name kept by a line has at most `NAME_LENGTH` characters, and is what
/// was typed when that was short enough.
pub proof fn law_kept_name_is_short(typed: Seq<char>)
    ensures
        name_kept(typed).len() <= NAME_LENGTH,
        typed.len() <= NAME_LENGTH ==> name_kept(typed) == typed,
        name_kept(typed) == typed.take(name_kept(typed).len() as int),
{
    assert(typed.take(typed.len() as int) =~= typed);
}

/// Backspace takes back the character that a key of one character typed.
pub proof fn law_backspace_undoes_key(t: Typing, name: Seq<char>, entering: bool)
    requires
        name.len() == 1,
        vstd::utf8::is_ascii_chars(name),
    ensures
        key_step(key_step(t, KeyView::Named(name), entering), KeyView::Backspace, entering) == t,
{
    assert((t.typed + name).drop_last() =~= t.typed);
}

/// Only Space asks for another game, and only while no name is being typed;
/// Return alone ends typing, and no key undoes either.
pub proof fn law_space_and_return(t: Typing, keys: Seq<KeyView>, entering: bool)
    ensures
        type_keys(t, keys, entering).space == (t.space || (!entering && keys.contains(
            KeyView::Space,
        ))),
        type_keys(t, keys, entering).done == (t.done || keys.contains(KeyView::Return)),
    decreases keys.len(),
{
    if keys.len() > 0 {
        let rest = keys.drop_last();
        law_space_and_return(t, rest, entering);
        assert forall|k: KeyView| keys.contains(k) <==> (rest.contains(k) || keys.last() == k) by {
            if keys.contains(k) {
                let i = choose|i: int| 0 <= i < keys.len() && keys[i] == k;
                if i < keys.len() - 1 {
                    assert(rest[i] == k);
                }
            }
            if rest.contains(k) {
                let i = choose|i: int| 0 <= i < rest.len() && rest[i] == k;
                assert(keys[i] == k);
            }
            if keys.last() == k {
                assert(keys[keys.len() - 1] == k);
            }
        }
    }
}

/// Started at zero, the flashes count the whole minutes (of 60 frames)
/// shown, frame after frame.
pub proof fn law_flash_every_sixty_frames(ticks: int, flashes: int)
    requires
        0 <= ticks,
        flashes == ticks / 60,
    ensures
        flashes + (if (ticks + 1) % 60 == 0 { 1int } else { 0int }) == (ticks + 1) / 60,
{
}

} // verus!

verus! {

/// What each key does to the typing, stated on the characters: Return ends
/// the name and types nothing, Space types one space, Backspace takes the
/// last character back (if any), a one-character ASCII name types that
/// character, and any other key does nothing.
pub proof fn law_key_effects(t: Typing, key: KeyView, entering: bool)
    ensures
        key == KeyView::Return ==> key_step(t, key, entering) == (Typing { done: true, ..t }),
        key == KeyView::Space ==> {
            &&& key_step(t, key, entering).typed.len() == t.typed.len() + 1
            &&& key_step(t, key, entering).typed.take(t.typed.len() as int) == t.typed
            &&& key_step(t, key, entering).typed[t.typed.len() as int] == ' '
            &&& key_step(t, key, entering).space == (t.space || !entering)
            &&& key_step(t, key, entering).done == t.done
        },
        key == KeyView::Backspace ==> {
            &&& t.typed.len() > 0 ==> key_step(t, key, entering).typed == t.typed.take(
                t.typed.len() - 1,
            )
            &&& t.typed.len() == 0 ==> key_step(t, key, entering).typed == t.typed
            &&& key_step(t, key, entering).done == t.done
            &&& key_step(t, key, entering).space == t.space
        },
        key matches KeyView::Named(name) ==> {
            &&& (name.len() == 1 && '\0' <= name[0] <= '\u{7f}') ==> key_step(
                t,
                key,
                entering,
            ).typed == t.typed.push(name[0])
            &&& !(name.len() == 1 && '\0' <= name[0] <= '\u{7f}') ==> key_step(t, key, entering)
                == t
            &&& key_step(t, key, entering).done == t.done
            &&& key_step(t, key, entering).space == t.space
        },
        NAME_LENGTH == 5,
        PALETTE_SIZE == 4,
        name_finished(entering, t) <==> (entering && (t.done || t.typed.len() >= 6)),
{
    match key {
        KeyView::Space => {
            assert(t.typed.push(' ').take(t.typed.len() as int) =~= t.typed);
        },
        KeyView::Backspace => {
            assert(t.typed.len() > 0 ==> t.typed.drop_last() =~= t.typed.take(t.typed.len() - 1));
        },
        KeyView::Named(name) => {
            if name.len() == 1 && '\0' <= name[0] <= '\u{7f}' {
                assert(t.typed + name =~= t.typed.push(name[0]));
            }
        },
        _ => {},
    }
}

} // verus!
