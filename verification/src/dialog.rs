//! Story beats and short lines. Keep under the 5×7 font budget.

use vstd::prelude::*;
use crate::text::str_eq;

verus! {

#[derive(Clone, Copy, Debug, PartialEq, Eq, Structural)]
pub enum SceneId {
    RakiJoin,
    RecruitPaburo,
    RecruitPieta,
    OpheliaIntro,
    TownDoga,
    TownDogaLate,
}

/// A dialog in progress: which scene, and which line is showing.
#[derive(Clone, Copy, Debug)]
pub struct SceneState {
    pub id: SceneId,
    pub step: usize,
}

#[derive(Clone, Copy, Debug)]
pub struct Line {
    pub speaker: &'static str,
    pub text: &'static str,
}

#[derive(Clone, Copy, Debug)]
pub struct Choice {
    pub label: &'static str,
    pub yes: bool,
}

pub open spec fn raki_lines() -> Seq<Line> {
    seq![
        Line { speaker: "RAKI", text: "You killed it. You killed the thing that took them." },
        Line { speaker: "RAKI", text: "I have nowhere left. I'm coming." },
        Line { speaker: "CLARE", text: "The road does not care about boys." },
        Line { speaker: "RAKI", text: "Then I'll die closer to it than here." },
    ]
}

pub open spec fn recruit_paburo_lines() -> Seq<Line> {
    seq![
        Line { speaker: "MIRIA", text: "You cut clean. Most low ranks flinch." },
        Line { speaker: "HELEN", text: "Rank 47? Cute. Don't trip on that sword." },
        Line { speaker: "MIRIA", text: "Walk with us until the next nest. Or don't." },
        Line { speaker: "MIRIA", text: "The Organization will not mourn either choice." },
    ]
}

pub open spec fn recruit_pieta_lines() -> Seq<Line> {
    seq![
        Line { speaker: "DENEVE", text: "I will not die here." },
        Line { speaker: "DENEVE", text: "That is not a boast. It is a schedule." },
        Line { speaker: "DENEVE", text: "If the north is a trap, we walk in with open eyes." },
    ]
}

pub open spec fn ophelia_lines() -> Seq<Line> {
    seq![
        Line { speaker: "OPHELIA", text: "A little sister. How nice." },
        Line { speaker: "CLARE", text: "I'm here to end you." },
        Line { speaker: "OPHELIA", text: "That's what friends are for." },
        Line { speaker: "OPHELIA", text: "Don't run. Friends don't run." },
    ]
}

pub open spec fn town_doga_lines() -> Seq<Line> {
    seq![
        Line { speaker: "ELDER", text: "You're one of them. Good." },
        Line { speaker: "ELDER", text: "Something in the well has been wearing faces." },
        Line { speaker: "ELDER", text: "We lit the beacon three nights ago. Two families are gone." },
    ]
}

pub open spec fn town_doga_late_lines() -> Seq<Line> {
    seq![
        Line { speaker: "ASH", text: "You arrive to ash. The nest has moved into the cellars." },
        Line { speaker: "ASH", text: "The well is empty of faces. The houses are not." },
        Line { speaker: "ASH", text: "The boy is gone. No one left to hold your wrist." },
    ]
}

/// The line bank of a scene.
pub open spec fn lines_of(id: SceneId) -> Seq<Line> {
    match id {
        SceneId::RakiJoin => raki_lines(),
        SceneId::RecruitPaburo => recruit_paburo_lines(),
        SceneId::RecruitPieta => recruit_pieta_lines(),
        SceneId::OpheliaIntro => ophelia_lines(),
        SceneId::TownDoga => town_doga_lines(),
        SceneId::TownDogaLate => town_doga_late_lines(),
    }
}

/// The choices a scene offers on its last line.
pub open spec fn end_choices(id: SceneId) -> Seq<Choice> {
    match id {
        SceneId::RakiJoin => seq![
            Choice { label: "KEEP UP", yes: true },
            Choice { label: "STAY HERE", yes: false },
        ],
        SceneId::RecruitPaburo | SceneId::RecruitPieta => seq![
            Choice { label: "WALK WITH US", yes: true },
            Choice { label: "NOT YET", yes: false },
        ],
        SceneId::OpheliaIntro => seq![Choice { label: "END HER", yes: true }],
        SceneId::TownDoga | SceneId::TownDogaLate => seq![Choice { label: "CONTINUE", yes: true }],
    }
}

/// One `advance`: the next line, unless already on the last one.
pub open spec fn advanced(s: SceneState) -> SceneState {
    if at_end_spec(s) {
        s
    } else {
        SceneState { id: s.id, step: (s.step + 1) as usize }
    }
}

/// The scene is on its last line (or past it).
pub open spec fn at_end_spec(s: SceneState) -> bool {
    s.step + 1 >= lines_of(s.id).len()
}

fn raki() -> (l: &'static [Line])
    ensures
        l@ == raki_lines(),
{
    &[
        Line { speaker: "RAKI", text: "You killed it. You killed the thing that took them." },
        Line { speaker: "RAKI", text: "I have nowhere left. I'm coming." },
        Line { speaker: "CLARE", text: "The road does not care about boys." },
        Line { speaker: "RAKI", text: "Then I'll die closer to it than here." },
    ]
}

fn recruit_paburo() -> (l: &'static [Line])
    ensures
        l@ == recruit_paburo_lines(),
{
    &[
        Line { speaker: "MIRIA", text: "You cut clean. Most low ranks flinch." },
        Line { speaker: "HELEN", text: "Rank 47? Cute. Don't trip on that sword." },
        Line { speaker: "MIRIA", text: "Walk with us until the next nest. Or don't." },
        Line { speaker: "MIRIA", text: "The Organization will not mourn either choice." },
    ]
}

fn recruit_pieta() -> (l: &'static [Line])
    ensures
        l@ == recruit_pieta_lines(),
{
    &[
        Line { speaker: "DENEVE", text: "I will not die here." },
        Line { speaker: "DENEVE", text: "That is not a boast. It is a schedule." },
        Line { speaker: "DENEVE", text: "If the north is a trap, we walk in with open eyes." },
    ]
}

fn ophelia() -> (l: &'static [Line])
    ensures
        l@ == ophelia_lines(),
{
    &[
        Line { speaker: "OPHELIA", text: "A little sister. How nice." },
        Line { speaker: "CLARE", text: "I'm here to end you." },
        Line { speaker: "OPHELIA", text: "That's what friends are for." },
        Line { speaker: "OPHELIA", text: "Don't run. Friends don't run." },
    ]
}

fn town_doga() -> (l: &'static [Line])
    ensures
        l@ == town_doga_lines(),
{
    &[
        Line { speaker: "ELDER", text: "You're one of them. Good." },
        Line { speaker: "ELDER", text: "Something in the well has been wearing faces." },
        Line { speaker: "ELDER", text: "We lit the beacon three nights ago. Two families are gone." },
    ]
}

fn town_doga_late() -> (l: &'static [Line])
    ensures
        l@ == town_doga_late_lines(),
{
    &[
        Line { speaker: "ASH", text: "You arrive to ash. The nest has moved into the cellars." },
        Line { speaker: "ASH", text: "The well is empty of faces. The houses are not." },
        Line { speaker: "ASH", text: "The boy is gone. No one left to hold your wrist." },
    ]
}

impl SceneState {
    pub fn new(id: SceneId) -> (s: Self)
        ensures
            s.id == id,
            s.step == 0,
    {
        Self { id, step: 0 }
    }

    pub fn lines(&self) -> (l: &'static [Line])
        ensures
            l@ == lines_of(self.id),
    {
        match self.id {
            SceneId::RakiJoin => raki(),
            SceneId::RecruitPaburo => recruit_paburo(),
            SceneId::RecruitPieta => recruit_pieta(),
            SceneId::OpheliaIntro => ophelia(),
            SceneId::TownDoga => town_doga(),
            SceneId::TownDogaLate => town_doga_late(),
        }
    }

    pub fn current(&self) -> (l: Option<&'static Line>)
        ensures
            self.step < lines_of(self.id).len() ==> l == Some(&lines_of(self.id)[self.step as int]),
            self.step >= lines_of(self.id).len() ==> l.is_none(),
    {
        let lines = self.lines();
        if self.step < lines.len() {
            Some(&lines[self.step])
        } else {
            None
        }
    }

    pub fn at_end(&self) -> (b: bool)
        requires
            self.step < usize::MAX,
        ensures
            b == at_end_spec(*self),
    {
        self.step + 1 >= self.lines().len()
    }

    pub fn advance(&mut self) -> (moved: bool)
        requires
            old(self).step < usize::MAX,
        ensures
            moved == !at_end_spec(*old(self)),
            *final(self) == advanced(*old(self)),
    {
        if self.step + 1 < self.lines().len() {
            self.step += 1;
            true
        } else {
            false
        }
    }

    pub fn choices(&self) -> (c: &'static [Choice])
        requires
            self.step < usize::MAX,
        ensures
            at_end_spec(*self) ==> c@ == end_choices(self.id),
            !at_end_spec(*self) ==> c@.len() == 0,
    {
        if !self.at_end() {
            return &[];
        }
        match self.id {
            SceneId::RakiJoin => &[
                Choice { label: "KEEP UP", yes: true },
                Choice { label: "STAY HERE", yes: false },
            ],
            SceneId::RecruitPaburo | SceneId::RecruitPieta => &[
                Choice { label: "WALK WITH US", yes: true },
                Choice { label: "NOT YET", yes: false },
            ],
            SceneId::OpheliaIntro => &[Choice { label: "END HER", yes: true }],
            SceneId::TownDoga | SceneId::TownDogaLate => &[Choice { label: "CONTINUE", yes: true }],
        }
    }
}

/// Title-to-island crawl.
pub const INTRO: &'static str = "You are Clare, No. 47.\n\nThe Organization branded you, ranked you,\nand sent you to the island to cut the things\nthat wear human skin.\n\nDoga has lit a beacon.\nWalk there.\nDo not raise the bar unless you must.";

pub const RESULT_WIN_TITLE: &'static str = "The board is quiet.";
pub const RESULT_WIN_BODY: &'static str = "You walk back with blood on the silver. The beacon goes dark.";
pub const RESULT_LOSE_TITLE: &'static str = "You fall.";
pub const RESULT_LOSE_BODY: &'static str = "The Organization will send another number.";
pub const RESULT_LATE_TITLE: &'static str = "Too late.";
pub const RESULT_LATE: &'static str = "You arrive to ash. The nest has moved into the cellars.";
pub const TOWN_REST: &'static str = "Sleep is a low bar. Take it.";
pub const TOWN_LEAVE: &'static str = "The road does not care about rank.";
pub const TOWN_EMPTY: &'static str = "No new beacons. The island is holding its breath.";

/// Title-screen flavor lines.
pub open spec fn title_flavor_lines() -> Seq<&'static str> {
    seq![
        "Silver eyes see what men will not.",
        "Rank is a number. The bar is a choice.",
        "They call you a Claymore. You are a knife with a name.",
        "Open the bar only when the alternative is dying.",
        "The Organization does not mourn numbers.",
        "Beacons are clocks. The island does not wait.",
    ]
}

/// Title-screen flavor lines.
pub fn title_flavor() -> (l: &'static [&'static str])
    ensures
        l@ == title_flavor_lines(),
{
    &[
        "Silver eyes see what men will not.",
        "Rank is a number. The bar is a choice.",
        "They call you a Claymore. You are a knife with a name.",
        "Open the bar only when the alternative is dying.",
        "The Organization does not mourn numbers.",
        "Beacons are clocks. The island does not wait.",
    ]
}

/// Optional combat flavor for a log kind.
pub open spec fn bark_of(kind: Seq<char>) -> Option<&'static str> {
    if kind == "trans"@ {
        Some("Clare opens the bar.")
    } else if kind == "trans_high"@ {
        Some("The silver in her eyes goes thin.")
    } else if kind == "sever"@ {
        Some("The arm learns it is optional.")
    } else if kind == "death_yoma"@ || kind == "death"@ {
        Some("The face stops being a face.")
    } else if kind == "death_silver"@ {
        Some("A number goes dark.")
    } else if kind == "raki_drop"@ {
        Some("Raki's voice cuts through. The bar falls.")
    } else if kind == "miria_phantom"@ {
        Some("Miria is already gone from where they aimed.")
    } else if kind == "helen_stretch"@ {
        Some("Helen takes the far hex without stepping.")
    } else if kind == "ophelia_ripple"@ {
        Some("The ground forgets who owns it.")
    } else if kind == "raise"@ {
        Some("Clare opens the bar.")
    } else {
        None
    }
}

/// Optional combat flavor. Prefer these over pure mechanical text for narrative kinds.
pub fn bark(kind: &str) -> (b: Option<&'static str>)
    ensures
        b == bark_of(kind@),
{
    if str_eq(kind, "trans") {
        Some("Clare opens the bar.")
    } else if str_eq(kind, "trans_high") {
        Some("The silver in her eyes goes thin.")
    } else if str_eq(kind, "sever") {
        Some("The arm learns it is optional.")
    } else if str_eq(kind, "death_yoma") || str_eq(kind, "death") {
        Some("The face stops being a face.")
    } else if str_eq(kind, "death_silver") {
        Some("A number goes dark.")
    } else if str_eq(kind, "raki_drop") {
        Some("Raki's voice cuts through. The bar falls.")
    } else if str_eq(kind, "miria_phantom") {
        Some("Miria is already gone from where they aimed.")
    } else if str_eq(kind, "helen_stretch") {
        Some("Helen takes the far hex without stepping.")
    } else if str_eq(kind, "ophelia_ripple") {
        Some("The ground forgets who owns it.")
    } else if str_eq(kind, "raise") {
        Some("Clare opens the bar.")
    } else {
        None
    }
}

/// Every scene has lines, and offers at least one choice once on its last
/// line: a scene's choices are non-empty exactly when it is at its end.
pub proof fn lemma_choices_exactly_at_end(s: SceneState)
    ensures
        lines_of(s.id).len() >= 1,
        at_end_spec(s) ==> end_choices(s.id).len() >= 1,
{
}

/// Advancing never leaves the bank: a scene showing a line still shows one
/// after `advance`, and advancing an ended scene changes nothing.
pub proof fn lemma_advance_stays_in_bank(s: SceneState)
    requires
        s.step < lines_of(s.id).len(),
    ensures
        advanced(s).step < lines_of(s.id).len(),
        advanced(s).id == s.id,
        at_end_spec(s) ==> advanced(s) == s,
{
}

/// Repeated advancing ends on the last line: from any line of the bank,
/// `lines - 1 - step` advances reach the end.
pub proof fn lemma_advance_reaches_end(s: SceneState)
    requires
        s.step < lines_of(s.id).len(),
    ensures
        at_end_spec(advance_n(s, (lines_of(s.id).len() - 1 - s.step) as nat)),
        advance_n(s, (lines_of(s.id).len() - 1 - s.step) as nat).step == lines_of(s.id).len() - 1,
    decreases lines_of(s.id).len() - 1 - s.step,
{
    if s.step + 1 < lines_of(s.id).len() {
        lemma_advance_reaches_end(advanced(s));
        lemma_advance_n_unfold(s, (lines_of(s.id).len() - 1 - s.step) as nat);
    }
}

/// `n` successive advances.
pub open spec fn advance_n(s: SceneState, n: nat) -> SceneState
    decreases n,
{
    if n == 0 {
        s
    } else {
        advance_n(advanced(s), (n - 1) as nat)
    }
}

proof fn lemma_advance_n_unfold(s: SceneState, n: nat)
    requires
        n > 0,
    ensures
        advance_n(s, n) == advance_n(advanced(s), (n - 1) as nat),
{
}

/// After `k` advances a scene shows line `min(step + k, last)`.
proof fn lemma_advance_n_step(s: SceneState, k: nat)
    requires
        s.step < lines_of(s.id).len(),
    ensures
        advance_n(s, k).id == s.id,
        advance_n(s, k).step == if s.step + k < lines_of(s.id).len() - 1 {
            s.step + k
        } else {
            lines_of(s.id).len() - 1
        },
    decreases k,
{
    if k > 0 {
        lemma_advance_n_step(advanced(s), (k - 1) as nat);
    }
}

/// A scene opened fresh and advanced `k` times is at its end exactly when
/// `k` reaches its last line, and then advancing leaves it unchanged.
pub proof fn lemma_end_after_advances(id: SceneId, k: nat)
    ensures
        at_end_spec(advance_n(SceneState { id, step: 0 }, k)) <==> k >= lines_of(id).len() - 1,
        at_end_spec(advance_n(SceneState { id, step: 0 }, k)) ==> advanced(
            advance_n(SceneState { id, step: 0 }, k),
        ) == advance_n(SceneState { id, step: 0 }, k),
{
    lemma_choices_exactly_at_end(SceneState { id, step: 0 });
    lemma_advance_n_step(SceneState { id, step: 0 }, k);
}

} // verus!
