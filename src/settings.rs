//! The game's settings file, its command-line options, and the checks made
//! on configuration files before the game starts.
use vstd::prelude::*;

verus! {

/// How players move from one level to the next.
#[derive(Clone, Copy, Debug, PartialEq, Eq, Structural)]
pub enum LevelTransistionType {
    /// Players enter an overworld from which they reach the levels, and come
    /// back to it after each level.
    Overworld,
    /// Players start in the first level and go on to the next after each; the
    /// settings must then give the level order.
    NoOverworld,
}

/// The game's settings file.
#[derive(Clone, Debug)]
pub struct GameFile {
    /// Title of the game.
    pub title: String,
    /// Authors of the game.
    pub authors: Vec<String>,
    /// How players move between levels.
    pub level_transistion: LevelTransistionType,
    /// The order of the levels, where there is no overworld.
    pub level_order: Option<Vec<u32>>,
    /// The game's credits, as markdown.
    pub credits: String,
    /// Path of the credits music.
    pub credit_music: String,
}

impl Default for GameFile {
    /// Settings for a game of one level, without an overworld.
    fn default() -> (r: GameFile)
        ensures
            r.title@ == "Temple"@,
            r.authors@.len() == 1,
            r.authors@[0]@ == "ALUMUX (Chris M.)"@,
            r.level_transistion == LevelTransistionType::NoOverworld,
            r.level_order matches Some(order) && order@ == seq![0u32],
            r.credits@ == Seq::<char>::empty(),
            r.credit_music@ == Seq::<char>::empty(),
    {
        let mut order: Vec<u32> = Vec::new();
        order.push(0);
        let mut authors: Vec<String> = Vec::new();
        authors.push(String::from_str("ALUMUX (Chris M.)"));
        assert(order@ =~= seq![0u32]);
        GameFile {
            title: String::from_str("Temple"),
            authors,
            level_transistion: LevelTransistionType::NoOverworld,
            level_order: Some(order),
            credits: String::new(),
            credit_music: String::new(),
        }
    }
}

impl GameFile {
    /// The settings ask for no overworld but give no level order, so that no
    /// level would follow the first.
    pub fn is_missing_level_order(&self) -> (r: bool)
        ensures
            r == (self.level_transistion == LevelTransistionType::NoOverworld
                && self.level_order is None),
    {
        self.level_transistion == LevelTransistionType::NoOverworld && self.level_order.is_none()
    }

    /// The authors' names run together, as the game's about text shows them;
    /// `None` where the settings name no author.
    pub fn author_list(&self) -> (r: Option<String>)
        ensures
            match r {
                Some(s) => self.authors@.len() > 0 && s@ == concat_texts(
                    self.authors@.map_values(|a: String| a@),
                ),
                None => self.authors@.len() == 0,
            },
    {
        if self.authors.len() == 0 {
            return None;
        }
        let ghost texts = self.authors@.map_values(|a: String| a@);
        let mut s = String::new();
        let mut i: usize = 0;
        assert(texts.take(0) =~= Seq::<Seq<char>>::empty());
        while i < self.authors.len()
            invariant
                i <= self.authors.len(),
                texts == self.authors@.map_values(|a: String| a@),
                s@ == concat_texts(texts.take(i as int)),
            decreases self.authors.len() - i,
        {
            s.append(self.authors[i].as_str());
            assert(texts.take(i + 1).drop_last() =~= texts.take(i as int));
            i = i + 1;
        }
        assert(texts.take(i as int) =~= texts);
        Some(s)
    }
}

/// What follows the completion of a level.
#[derive(Clone, Copy, Debug, PartialEq, Eq, Structural)]
pub enum NextLevelStep {
    /// Go on to this level.
    Transition(u32),
    /// The last level of the order is done: play the credits.
    Credits,
    /// Nothing follows from here: there is an overworld, or the level is not
    /// in the order.
    Stay,
}

/// `i` is the first position of `level` in `order`.
pub open spec fn first_position(order: Seq<u32>, level: u32, i: int) -> bool {
    &&& 0 <= i < order.len()
    &&& order[i] == level
    &&& forall|k: int| 0 <= k < i ==> order[k] != level
}

impl GameFile {
    /// The step after `current` is completed: without an overworld, the level
    /// that follows `current`'s first place in the level order, or the credits
    /// after the last one.
    pub fn next_level(&self, current: u32) -> (r: NextLevelStep)
        requires
            self.level_transistion == LevelTransistionType::NoOverworld ==> self.level_order is Some,
        ensures
            match r {
                NextLevelStep::Transition(n) => self.level_transistion
                    == LevelTransistionType::NoOverworld && exists|i: int|
                    #[trigger] first_position(self.level_order->0@, current, i) && i + 1
                        < self.level_order->0@.len() && n == self.level_order->0@[i + 1],
                NextLevelStep::Credits => self.level_transistion == LevelTransistionType::NoOverworld
                    && exists|i: int|
                    #[trigger] first_position(self.level_order->0@, current, i) && i + 1
                        == self.level_order->0@.len(),
                NextLevelStep::Stay => self.level_transistion != LevelTransistionType::NoOverworld
                    || !self.level_order->0@.contains(current),
            },
    {
        if self.level_transistion != LevelTransistionType::NoOverworld {
            return NextLevelStep::Stay;
        }
        let order = match &self.level_order {
            Some(order) => order,
            None => {
                return NextLevelStep::Stay;
            },
        };
        let mut i: usize = 0;
        while i < order.len()
            invariant
                i <= order.len(),
                self.level_order == Some(*order),
                self.level_transistion == LevelTransistionType::NoOverworld,
                forall|k: int| 0 <= k < i ==> order@[k] != current,
            decreases order.len() - i,
        {
            if order[i] == current {
                assert(self.level_order->0@ == order@);
                assert(first_position(self.level_order->0@, current, i as int));
                if i + 1 < order.len() {
                    return NextLevelStep::Transition(order[i + 1]);
                } else {
                    return NextLevelStep::Credits;
                }
            }
            i = i + 1;
        }
        NextLevelStep::Stay
    }
}

/// The texts written one after the other.
pub open spec fn concat_texts(s: Seq<Seq<char>>) -> Seq<char>
    decreases s.len(),
{
    if s.len() == 0 {
        Seq::empty()
    } else {
        concat_texts(s.drop_last()) + s.last()
    }
}

/// What the command line asks for.
#[derive(Clone, Copy, Debug, PartialEq, Eq, Structural)]
pub struct CliArgs {
    /// The level to start in, if any.
    pub load_level: Option<u32>,
    /// Whether to show the frame rate.
    pub show_fps_counter: bool,
    /// Whether to open the editor.
    pub edit_mode: bool,
}

/// Builds a [`CliArgs`] one option at a time.
#[derive(Clone, Copy, Debug, PartialEq, Eq, Structural)]
pub struct CliArgsBuilder {
    pub load_level: Option<u32>,
    pub show_fps_counter: bool,
    pub edit_mode: bool,
}

impl Default for CliArgsBuilder {
    fn default() -> (r: CliArgsBuilder)
        ensures
            r == (CliArgsBuilder { load_level: None, show_fps_counter: false, edit_mode: false }),
    {
        CliArgsBuilder { load_level: None, show_fps_counter: false, edit_mode: false }
    }
}

impl CliArgs {
    /// A builder with no option set.
    pub fn builder() -> (r: CliArgsBuilder)
        ensures
            r == (CliArgsBuilder { load_level: None, show_fps_counter: false, edit_mode: false }),
    {
        CliArgsBuilder { load_level: None, show_fps_counter: false, edit_mode: false }
    }
}

impl CliArgsBuilder {
    pub fn load_level(self, id: u32) -> (r: CliArgsBuilder)
        ensures
            r == (CliArgsBuilder { load_level: Some(id), ..self }),
    {
        CliArgsBuilder { load_level: Some(id), ..self }
    }

    pub fn show_fps_counter(self) -> (r: CliArgsBuilder)
        ensures
            r == (CliArgsBuilder { show_fps_counter: true, ..self }),
    {
        CliArgsBuilder { show_fps_counter: true, ..self }
    }

    pub fn enable_editor(self) -> (r: CliArgsBuilder)
        ensures
            r == (CliArgsBuilder { edit_mode: true, ..self }),
    {
        CliArgsBuilder { edit_mode: true, ..self }
    }

    pub fn build(self) -> (r: CliArgs)
        ensures
            r == (CliArgs {
                load_level: self.load_level,
                show_fps_counter: self.show_fps_counter,
                edit_mode: self.edit_mode,
            }),
    {
        CliArgs {
            load_level: self.load_level,
            show_fps_counter: self.show_fps_counter,
            edit_mode: self.edit_mode,
        }
    }
}

#[verifier::external_type_specification]
#[verifier::external_body]
pub struct ExTomlError(toml::de::Error);

/// The report line for a configuration file at `path` that failed to parse,
/// before the parser's own message.
pub open spec fn problem_prefix(path: Seq<char>) -> Seq<char> {
    "File verification failed for "@ + path + ": "@
}

/// Reports a configuration file that failed to parse: `None` where it
/// parsed, else a line that names the file and then gives the parser's message.
pub fn find_toml_problems<T>(path: &str, toml_result: Result<T, toml::de::Error>) -> (r: Option<
    String,
>)
    ensures
        match toml_result {
            Ok(_) => r is None,
            Err(_) => r matches Some(line) && line@.len() >= problem_prefix(path@).len()
                && line@.take(problem_prefix(path@).len() as int) == problem_prefix(path@),
        },
{
    match toml_result {
        Ok(_) => None,
        Err(e) => {
            let message = e.to_string();
            let mut line = String::from_str("File verification failed for ");
            line.append(path);
            line.append(": ");
            let ghost head = line@;
            line.append(message.as_str());
            assert(line@.take(head.len() as int) =~= head);
            Some(line)
        },
    }
}

} // verus!
