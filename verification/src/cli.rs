//! The tag creation flow: from the configured options and the discovered
//! tags to exactly one new tag, interactively or quietly, with the write to
//! the store as the single terminal action.

use vstd::prelude::*;
use crate::error::TaggingError;
use crate::git::GitRepoIO;
use crate::tag::{bumped, can_bump, can_bump_check, position_token, Position, Tag, TagV};
use crate::version::{valid_version_str, version_of, Version};

verus! {

/// How many times a prompt is repeated on unusable input before the flow
/// gives up.
pub const MAX_PROMPT_ATTEMPTS: usize = 100;

/// The configuration of one invocation.
pub struct Opt {
    /// Disable prompts: run quietly with a pre-chosen increment position.
    pub quiet: bool,
    /// Echo the parsed configuration before running.
    pub debug: bool,
    /// The pre-chosen increment position; required in quiet mode.
    pub inc_position: Option<Position>,
    /// The tag prefix to scope discovery and creation to.
    pub prefix: String,
}

/// What a completed flow did.
#[derive(Debug)]
pub enum Outcome {
    /// The new tag, written to the store.
    Created(Tag),
    /// The user declined the confirmation; nothing was written.
    Cancelled,
}

/// Line-oriented interaction: show a line of text, or show a description and
/// read one line of input. Implementations live outside the library (the
/// real console, or a substitute in tests), so nothing is assumed of the
/// input they produce.
pub trait LinePrompt {
    fn read_line(&mut self, description: &str) -> (r: Result<String, TaggingError>);

    fn show(&mut self, text: &str);
}

/// The seed version used in quiet mode when no tag exists yet.
pub open spec fn seed_version(position: Position) -> Version {
    match position {
        Position::Major => Version { major: 1, minor: 0, patch: 0 },
        Position::Minor => Version { major: 0, minor: 1, patch: 0 },
        Position::Patch => Version { major: 0, minor: 0, patch: 1 },
    }
}

/// The quiet-mode decision over a discovered list: an empty namespace gets
/// the seed version for the chosen position; otherwise the newest discovered
/// version — the head of the descending list — is bumped there, which asks
/// that its component is below the machine maximum.
pub open spec fn quiet_decision(ds: Seq<TagV>, position: Position, v: Version) -> bool {
    if ds.len() == 0 {
        v == seed_version(position)
    } else {
        can_bump(ds[0].version, position) && v == bumped(ds[0].version, position)
    }
}

/// The interactive decision over a discovered list and the deciding answer:
/// with no tag yet, the answer is the well-formed version string the result
/// denotes; otherwise the answer denotes the position at which the newest
/// discovered version is bumped.
pub open spec fn interactive_decision(ds: Seq<TagV>, answer: Seq<char>, v: Version) -> bool {
    if ds.len() == 0 {
        valid_version_str(answer) && v == version_of(answer)
    } else {
        &&& position_token(answer) is Some
        &&& can_bump(ds[0].version, position_token(answer).unwrap())
        &&& v == bumped(ds[0].version, position_token(answer).unwrap())
    }
}

/// Whether a confirmation answer affirms: it begins with `y`.
pub open spec fn affirmative(answer: Seq<char>) -> bool {
    answer.len() > 0 && answer[0] == 'y'
}

/// The recorded interactive protocol behind a created tag: the answer three
/// from the end decided the version against the discovered list, the answer
/// before the confirmation is the annotation (empty meaning none), and the
/// final answer affirmed the creation.
pub open spec fn interactive_protocol(answers: Seq<Seq<char>>, ds: Seq<TagV>, t: TagV) -> bool {
    let n = answers.len() as int;
    &&& n >= 3
    &&& interactive_decision(ds, answers[n - 3], t.version)
    &&& (answers[n - 2].len() == 0 ==> t.message is None)
    &&& (answers[n - 2].len() > 0 ==> t.message == Some(answers[n - 2]))
    &&& affirmative(answers[n - 1])
}

/// Every sequence is a prefix of itself.
proof fn lemma_prefix_refl<A>(a: Seq<A>)
    ensures
        a.is_prefix_of(a),
{
    assert(a.subrange(0, a.len() as int) =~= a);
}

/// A prefix stays a prefix after the longer sequence grows.
proof fn lemma_prefix_push<A>(a: Seq<A>, b: Seq<A>, x: A)
    requires
        a.is_prefix_of(b),
    ensures
        a.is_prefix_of(b.push(x)),
{
    assert(b.push(x).subrange(0, a.len() as int) =~= b.subrange(0, a.len() as int));
}

/// The first tag of a namespace: the seed version for the chosen position,
/// under the given prefix, with no timestamp and no message.
pub fn seed_tag(position: Position, prefix: &String) -> (t: Tag)
    ensures
        t@.version == seed_version(position),
        t@.prefix == prefix@,
        t@.timestamp is None,
        t@.message is None,
{
    let version = match position {
        Position::Major => Version { major: 1, minor: 0, patch: 0 },
        Position::Minor => Version { major: 0, minor: 1, patch: 0 },
        Position::Patch => Version { major: 0, minor: 0, patch: 1 },
    };
    Tag { prefix: prefix.clone(), version, timestamp: None, message: None }
}

/// The decision over a discovered list, quiet mode: an empty namespace is
/// seeded at the chosen position; otherwise the newest tag — the head of the
/// descending list — is bumped there, unless its component is already at the
/// machine maximum.
pub fn next_tag(tags: &Vec<Tag>, position: Position, prefix: &String) -> (r: Result<
    Tag,
    TaggingError,
>)
    ensures
        tags@.len() == 0 ==> (r matches Ok(t) && t@ == (TagV {
            prefix: prefix@,
            version: seed_version(position),
            timestamp: None,
            message: None,
        })),
        tags@.len() > 0 && can_bump(tags@[0]@.version, position) ==> (r matches Ok(t) && t@ == (
        TagV {
            prefix: tags@[0]@.prefix,
            version: bumped(tags@[0]@.version, position),
            timestamp: None,
            message: None,
        })),
        tags@.len() > 0 && !can_bump(tags@[0]@.version, position) ==> r == Err::<
            Tag,
            TaggingError,
        >(TaggingError::VersionLimit),
{
    if tags.len() > 0 {
        let base_tag = &tags[0];
        if can_bump_check(&base_tag.version, position) {
            Ok(base_tag.incremented(position))
        } else {
            Err(TaggingError::VersionLimit)
        }
    } else {
        Ok(seed_tag(position, prefix))
    }
}

/// The decision over one interactive bump answer: the position the answer
/// denotes bumps the base tag; an unrecognized token is rejected; a
/// component at its machine maximum cannot be bumped.
pub fn next_from_answer(base_tag: &Tag, answer: &str) -> (r: Result<Tag, TaggingError>)
    ensures
        match position_token(answer@) {
            Some(p) => {
                &&& can_bump(base_tag@.version, p) ==> (r matches Ok(t) && t@ == (TagV {
                    prefix: base_tag@.prefix,
                    version: bumped(base_tag@.version, p),
                    timestamp: None,
                    message: None,
                }))
                &&& !can_bump(base_tag@.version, p) ==> r == Err::<Tag, TaggingError>(
                    TaggingError::VersionLimit,
                )
            },
            None => r == Err::<Tag, TaggingError>(TaggingError::InvalidPosition),
        },
{
    match Position::from_str(answer) {
        Ok(position) => {
            if can_bump_check(&base_tag.version, position) {
                Ok(base_tag.incremented(position))
            } else {
                Err(TaggingError::VersionLimit)
            }
        },
        Err(e) => Err(e),
    }
}

/// Whether a confirmation answer affirms the creation.
pub fn confirms(answer: &str) -> (r: bool)
    ensures
        r == affirmative(answer@),
{
    answer.unicode_len() > 0 && answer.get_char(0) == 'y'
}

/// The annotation an answer denotes: none when the answer is empty,
/// otherwise the answer itself, verbatim.
pub fn annotation_of(answer: String) -> (r: Option<String>)
    ensures
        answer@.len() == 0 ==> r is None,
        answer@.len() > 0 ==> r == Some(answer),
{
    if answer.unicode_len() == 0 {
        None
    } else {
        Some(answer)
    }
}

/// The flow around one invocation: the configuration, the repository it
/// discovers from and writes to, and the prompt it talks through, with a
/// ghost record of every answer the prompt returned.
pub struct Cli<R: GitRepoIO, P: LinePrompt> {
    pub opt: Opt,
    pub git: R,
    pub prompt: P,
    pub answer_log: Ghost<Seq<Seq<char>>>,
}

impl<R: GitRepoIO, P: LinePrompt> Cli<R, P> {
    /// The tags written to the store through this invocation.
    pub open spec fn writes(&self) -> Seq<TagV> {
        self.git.writes()
    }

    /// The answers read from the prompt, in order.
    pub open spec fn answers(&self) -> Seq<Seq<char>> {
        self.answer_log@
    }

    /// A flow over the given configuration, repository and prompt.
    pub fn new(opt: Opt, git: R, prompt: P) -> (r: Cli<R, P>)
        ensures
            r.opt == opt,
            r.writes() == git.writes(),
            r.answers() == Seq::<Seq<char>>::empty(),
    {
        Cli { opt, git, prompt, answer_log: Ghost(Seq::empty()) }
    }

    /// Shows a description and reads one line of an answer, recording it.
    /// The only failure is an unusable prompt.
    fn prompt(&mut self, description: &str) -> (r: Result<String, TaggingError>)
        ensures
            final(self).opt == old(self).opt,
            final(self).git == old(self).git,
            r matches Ok(line) ==> final(self).answer_log@ == old(self).answer_log@.push(line@),
            r is Err ==> final(self).answer_log@ == old(self).answer_log@ && r == Err::<
                String,
                TaggingError,
            >(TaggingError::PromptUnavailable),
    {
        match self.prompt.read_line(description) {
            Ok(line) => {
                self.answer_log = Ghost(self.answer_log@.push(line@));
                Ok(line)
            },
            Err(_) => Err(TaggingError::PromptUnavailable),
        }
    }

    /// Runs the whole flow: discovers the existing tags, produces exactly
    /// one new tag for this prefix, and writes it to the store — unless the
    /// user declines the confirmation, in which case nothing is ever
    /// written. Quiet mode requires a pre-chosen increment position, is
    /// rejected before any store access or prompt otherwise, reads no user
    /// text, seeds an empty namespace at that position or bumps the newest
    /// discovered tag there, and never attaches a message. An interactive
    /// creation follows the recorded answers: the deciding answer fixes the
    /// version, the next answer the annotation, and the final answer the
    /// confirmation.
    pub fn run(&mut self) -> (r: Result<Outcome, TaggingError>)
        ensures
            final(self).opt == old(self).opt,
            r == Err::<Outcome, TaggingError>(TaggingError::MissingPosition) <==> old(self).opt.quiet && old(self).opt.inc_position is None,
            old(self).opt.quiet && old(self).opt.inc_position is None ==> final(self).git == old(self).git,
            old(self).opt.quiet ==> final(self).answer_log == old(self).answer_log,
            match r {
                Ok(Outcome::Created(t)) => final(self).writes() == old(self).writes().push(t@)
                    && t@.prefix == old(self).opt.prefix@ && t@.timestamp is None && (old(self).opt.quiet ==> t@.message is None),
                _ => final(self).writes() == old(self).writes(),
            },
            r matches Ok(Outcome::Created(t)) ==> (old(self).opt.quiet ==> old(self).opt.inc_position is Some && final(self).git.discovered() is Some && quiet_decision(
                final(self).git.discovered().unwrap(),
                old(self).opt.inc_position.unwrap(),
                t@.version,
            )),
            r matches Ok(Outcome::Created(t)) ==> (!old(self).opt.quiet ==> final(self).git.discovered() is Some && old(self).answer_log@.is_prefix_of(
                final(self).answer_log@,
            ) && final(self).answers().len() >= old(self).answers().len() + 3
                && interactive_protocol(
                final(self).answers(),
                final(self).git.discovered().unwrap(),
                t@,
            )),
            r == Ok::<Outcome, TaggingError>(Outcome::Cancelled) ==> !old(self).opt.quiet && final(self).answers().len() > 0 && !affirmative(final(self).answers().last()),
    {
        if self.opt.quiet && self.opt.inc_position.is_none() {
            return Err(TaggingError::MissingPosition);
        }
        let mut new_tag = match self.new_tag() {
            Ok(t) => t,
            Err(e) => {
                return Err(e);
            },
        };
        if !self.opt.quiet {
            let ghost chosen = self.answer_log@;
            match self.show_commit_info(&new_tag) {
                Ok(()) => {},
                Err(e) => {
                    return Err(e);
                },
            }
            let message = match self.confirm_tag_message() {
                Ok(m) => m,
                Err(e) => {
                    return Err(e);
                },
            };
            let ghost after_msg = self.answer_log@;
            new_tag.message = message;
            let answer = match self.prompt("\nCreate this tag? (y/n):") {
                Ok(a) => a,
                Err(e) => {
                    return Err(e);
                },
            };
            if !confirms(answer.as_str()) {
                return Ok(Outcome::Cancelled);
            }
            proof {
                let fin = self.answer_log@;
                let n = fin.len() as int;
                assert(fin == after_msg.push(answer@));
                assert(after_msg == chosen.push(after_msg.last()));
                assert(fin[n - 1] == answer@);
                assert(fin[n - 2] == after_msg.last());
                assert(fin[n - 3] == chosen[chosen.len() - 1]);
                lemma_prefix_push(old(self).answer_log@, chosen, after_msg.last());
                lemma_prefix_push(old(self).answer_log@, after_msg, answer@);
            }
        }
        match self.add_new_tag(&new_tag) {
            Ok(()) => {},
            Err(e) => {
                return Err(e);
            },
        }
        Ok(Outcome::Created(new_tag))
    }

    /// Produces the one new tag of this invocation, without writing it:
    /// interactively through the prompts, or quietly by the `next_tag`
    /// decision over the discovered list. The tag is scoped to the
    /// configured prefix with no timestamp and no message yet; quiet mode
    /// reads no user text.
    fn new_tag(&mut self) -> (r: Result<Tag, TaggingError>)
        ensures
            final(self).opt == old(self).opt,
            final(self).git.writes() == old(self).git.writes(),
            old(self).opt.quiet ==> final(self).answer_log == old(self).answer_log,
            old(self).answer_log@.is_prefix_of(final(self).answer_log@),
            r == Err::<Tag, TaggingError>(TaggingError::MissingPosition) <==> old(self).opt.quiet
                && old(self).opt.inc_position is None,
            old(self).opt.quiet && old(self).opt.inc_position is None ==> final(self).git == old(self).git,
            r matches Ok(t) ==> t@.prefix == old(self).opt.prefix@ && t@.timestamp is None
                && t@.message is None,
            r matches Ok(t) ==> (old(self).opt.quiet ==> old(self).opt.inc_position is Some
                && final(self).git.discovered() is Some && quiet_decision(
                final(self).git.discovered().unwrap(),
                old(self).opt.inc_position.unwrap(),
                t@.version,
            )),
            r matches Ok(t) ==> (!old(self).opt.quiet ==> final(self).git.discovered() is Some
                && final(self).answers().len() > old(self).answers().len()
                && interactive_decision(
                final(self).git.discovered().unwrap(),
                final(self).answers().last(),
                t@.version,
            )),
            r is Err ==> (r == Err::<Tag, TaggingError>(TaggingError::MissingPosition) || r
                == Err::<Tag, TaggingError>(TaggingError::TagStoreUnavailable) || r == Err::<
                Tag,
                TaggingError,
            >(TaggingError::PromptUnavailable) || r == Err::<Tag, TaggingError>(
                TaggingError::VersionLimit,
            )),
    {
        proof {
            lemma_prefix_refl(self.answer_log@);
        }
        if !self.opt.quiet {
            return self.confirm_new_tag();
        }
        let position = match self.opt.inc_position {
            Some(p) => p,
            None => {
                return Err(TaggingError::MissingPosition);
            },
        };
        let tags = match self.git.get_tags(self.opt.prefix.as_str()) {
            Ok(t) => t,
            Err(e) => {
                return Err(e);
            },
        };
        proof {
            if tags@.len() > 0 {
                assert(crate::tag::views_of(tags@)[0] == tags@[0]@);
            }
        }
        next_tag(&tags, position, &self.opt.prefix)
    }

    /// The interactive path: shows the latest tags and prompts for an
    /// increment position to bump the newest discovered tag, or prompts for
    /// an initial version when no tag exists yet. The last recorded answer
    /// decides the result's version.
    fn confirm_new_tag(&mut self) -> (r: Result<Tag, TaggingError>)
        ensures
            final(self).opt == old(self).opt,
            final(self).git.writes() == old(self).git.writes(),
            old(self).answer_log@.is_prefix_of(final(self).answer_log@),
            r matches Ok(t) ==> t@.prefix == old(self).opt.prefix@ && t@.timestamp is None
                && t@.message is None && final(self).git.discovered() is Some && final(self).answers().len() > old(self).answers().len() && interactive_decision(
                final(self).git.discovered().unwrap(),
                final(self).answers().last(),
                t@.version,
            ),
            r is Err ==> (r == Err::<Tag, TaggingError>(TaggingError::TagStoreUnavailable) || r
                == Err::<Tag, TaggingError>(TaggingError::PromptUnavailable) || r == Err::<
                Tag,
                TaggingError,
            >(TaggingError::VersionLimit)),
    {
        proof {
            lemma_prefix_refl(self.answer_log@);
        }
        let tags = match self.git.get_tags(self.opt.prefix.as_str()) {
            Ok(t) => t,
            Err(e) => {
                return Err(e);
            },
        };
        proof {
            if tags@.len() > 0 {
                assert(crate::tag::views_of(tags@)[0] == tags@[0]@);
            }
        }
        if tags.len() > 0 {
            self.list_latest_tag(&tags, 3);
            let base_tag = &tags[0];
            match self.prompt_incremented_tag(base_tag) {
                Ok(t) => Ok(t),
                Err(e) => Err(e),
            }
        } else {
            self.prompt_initial_tag()
        }
    }

    /// Shows up to `pick` of the most recent tags, marking the first as the
    /// bump target.
    fn list_latest_tag(&mut self, tags: &Vec<Tag>, pick: usize)
        ensures
            final(self).opt == old(self).opt,
            final(self).git == old(self).git,
            final(self).answer_log == old(self).answer_log,
    {
        let up_to = if pick < tags.len() {
            pick
        } else {
            tags.len()
        };
        self.prompt.show("Latest tags:");
        let mut idx: usize = 0;
        while idx < up_to
            invariant
                self.opt == old(self).opt,
                self.git == old(self).git,
                self.answer_log == old(self).answer_log,
                up_to <= tags@.len(),
            decreases up_to - idx,
        {
            let mut line = tags[idx].to_string();
            if idx == 0 {
                line.append("  <-- Target");
            }
            self.prompt.show(line.as_str());
            idx += 1;
        }
        if tags.len() > pick {
            self.prompt.show(":");
        }
    }

    /// Prompts for an increment position until a valid one is given, then
    /// bumps the base tag at it, by the `next_from_answer` decision: the
    /// last recorded answer denotes the applied position, and every earlier
    /// answer of this call denoted none. The new tag stays in the base tag's
    /// namespace and carries no timestamp and no message.
    fn prompt_incremented_tag(&mut self, base_tag: &Tag) -> (r: Result<Tag, TaggingError>)
        ensures
            final(self).opt == old(self).opt,
            final(self).git == old(self).git,
            old(self).answer_log@.is_prefix_of(final(self).answer_log@),
            r matches Ok(t) ==> final(self).answers().len() > old(self).answers().len()
                && t@.prefix == base_tag@.prefix && t@.timestamp is None && t@.message is None
                && position_token(final(self).answers().last()) is Some && can_bump(
                base_tag@.version,
                position_token(final(self).answers().last()).unwrap(),
            ) && t@.version == bumped(
                base_tag@.version,
                position_token(final(self).answers().last()).unwrap(),
            ),
            r matches Ok(t) ==> (forall|k: int|
                old(self).answers().len() <= k < final(self).answers().len() - 1
                    ==> position_token(#[trigger] final(self).answers()[k]) is None),
            r is Err ==> (r == Err::<Tag, TaggingError>(TaggingError::PromptUnavailable) || r
                == Err::<Tag, TaggingError>(TaggingError::VersionLimit)),
    {
        proof {
            lemma_prefix_refl(self.answer_log@);
        }
        let mut attempts: usize = 0;
        while attempts < MAX_PROMPT_ATTEMPTS
            invariant
                self.opt == old(self).opt,
                self.git == old(self).git,
                old(self).answer_log@.is_prefix_of(self.answer_log@),
                forall|k: int|
                    old(self).answers().len() <= k < self.answers().len() ==> position_token(
                        #[trigger] self.answers()[k],
                    ) is None,
            decreases MAX_PROMPT_ATTEMPTS - attempts,
        {
            let ghost before = self.answer_log@;
            proof {
                assert forall|k: int|
                    old(self).answers().len() <= k < before.len() implies position_token(
                    #[trigger] before[k],
                ) is None by {
                    assert(before[k] == self.answers()[k]);
                }
            }
            let input = match self.prompt(
                "\nWhich position do you want to increment?\nmajor(M) / minor(m) / patch(p):",
            ) {
                Ok(i) => i,
                Err(e) => {
                    return Err(e);
                },
            };
            proof {
                lemma_prefix_push(old(self).answer_log@, before, input@);
            }
            match next_from_answer(base_tag, input.as_str()) {
                Ok(t) => {
                    proof {
                        assert(position_token(input@) is Some);
                        assert(self.answer_log@.last() == input@);
                        assert forall|k: int|
                            old(self).answers().len() <= k < self.answers().len()
                                - 1 implies position_token(#[trigger] self.answers()[k]) is None by {
                            assert(self.answers()[k] == before[k]);
                        }
                    }
                    return Ok(t);
                },
                Err(TaggingError::InvalidPosition) => {
                    proof {
                        assert(position_token(input@) is None);
                        assert(self.answer_log@ == before.push(input@));
                        assert forall|k: int|
                            old(self).answers().len() <= k
                                < self.answers().len() implies position_token(
                            #[trigger] self.answers()[k],
                        ) is None by {
                            if k < before.len() {
                                assert(self.answers()[k] == before[k]);
                            } else {
                                assert(self.answers()[k] == input@);
                            }
                        }
                    }
                    let text = TaggingError::InvalidPosition.describe();
                    self.prompt.show(text.as_str());
                },
                Err(e) => {
                    return Err(e);
                },
            }
            attempts += 1;
        }
        Err(TaggingError::PromptUnavailable)
    }

    /// Prompts for an initial version until one parses, for a namespace with
    /// no tag yet: the last recorded answer is the well-formed version
    /// string the result denotes, and every earlier answer of this call was
    /// not one. The new tag is scoped to the configured prefix and carries
    /// no timestamp and no message.
    fn prompt_initial_tag(&mut self) -> (r: Result<Tag, TaggingError>)
        ensures
            final(self).opt == old(self).opt,
            final(self).git == old(self).git,
            old(self).answer_log@.is_prefix_of(final(self).answer_log@),
            r matches Ok(t) ==> final(self).answers().len() > old(self).answers().len()
                && t@.prefix == old(self).opt.prefix@ && t@.timestamp is None && t@.message is None
                && valid_version_str(final(self).answers().last()) && t@.version == version_of(
                final(self).answers().last(),
            ),
            r matches Ok(t) ==> (forall|k: int|
                old(self).answers().len() <= k < final(self).answers().len() - 1
                    ==> !valid_version_str(#[trigger] final(self).answers()[k])),
            r is Err ==> r == Err::<Tag, TaggingError>(TaggingError::PromptUnavailable),
    {
        proof {
            lemma_prefix_refl(self.answer_log@);
        }
        let mut attempts: usize = 0;
        while attempts < MAX_PROMPT_ATTEMPTS
            invariant
                self.opt == old(self).opt,
                self.git == old(self).git,
                old(self).answer_log@.is_prefix_of(self.answer_log@),
                forall|k: int|
                    old(self).answers().len() <= k < self.answers().len() ==> !valid_version_str(
                        #[trigger] self.answers()[k],
                    ),
            decreases MAX_PROMPT_ATTEMPTS - attempts,
        {
            let ghost before = self.answer_log@;
            proof {
                assert forall|k: int|
                    old(self).answers().len() <= k < before.len() implies !valid_version_str(
                    #[trigger] before[k],
                ) by {
                    assert(before[k] == self.answers()[k]);
                }
            }
            let input = match self.prompt(
                "\nTags based on semantic versioning do not exist yet. Please enter a new version:",
            ) {
                Ok(i) => i,
                Err(e) => {
                    return Err(e);
                },
            };
            proof {
                lemma_prefix_push(old(self).answer_log@, before, input@);
            }
            match Tag::new(input.as_str(), self.opt.prefix.clone(), None, None) {
                Ok(tag) => {
                    proof {
                        assert(self.answer_log@.last() == input@);
                        assert forall|k: int|
                            old(self).answers().len() <= k < self.answers().len()
                                - 1 implies !valid_version_str(#[trigger] self.answers()[k]) by {
                            assert(self.answers()[k] == before[k]);
                        }
                    }
                    return Ok(tag);
                },
                Err(err) => {
                    proof {
                        assert(self.answer_log@ == before.push(input@));
                        assert forall|k: int|
                            old(self).answers().len() <= k
                                < self.answers().len() implies !valid_version_str(
                            #[trigger] self.answers()[k],
                        ) by {
                            if k < before.len() {
                                assert(self.answers()[k] == before[k]);
                            } else {
                                assert(self.answers()[k] == input@);
                            }
                        }
                    }
                    let text = err.describe();
                    self.prompt.show(text.as_str());
                },
            }
            attempts += 1;
        }
        Err(TaggingError::PromptUnavailable)
    }

    /// Shows the tag about to be created and the most recent commit. The
    /// only failure is an unreachable store.
    fn show_commit_info(&mut self, new_tag: &Tag) -> (r: Result<(), TaggingError>)
        ensures
            final(self).opt == old(self).opt,
            final(self).git == old(self).git,
            final(self).answer_log == old(self).answer_log,
            r is Err ==> r == Err::<(), TaggingError>(TaggingError::TagStoreUnavailable),
    {
        let log = match self.git.get_log(None) {
            Ok(l) => l,
            Err(e) => {
                return Err(e);
            },
        };
        let mut text = String::from_str("\nThe new tag will be: ");
        let name = new_tag.to_string();
        text.append(name.as_str());
        self.prompt.show(text.as_str());
        self.prompt.show(log.as_str());
        Ok(())
    }

    /// Prompts for an optional annotation message, decided by
    /// `annotation_of` over the one answer read here: an empty answer means
    /// no message, any other answer is the message verbatim.
    fn confirm_tag_message(&mut self) -> (r: Result<Option<String>, TaggingError>)
        ensures
            final(self).opt == old(self).opt,
            final(self).git == old(self).git,
            r matches Ok(m) ==> final(self).answer_log@ == old(self).answer_log@.push(
                final(self).answers().last(),
            ) && (final(self).answers().last().len() == 0 ==> m is None) && (final(self).answers().last().len() > 0 ==> m is Some && m.unwrap()@ == final(self).answers().last()),
            r is Err ==> final(self).answer_log == old(self).answer_log && r == Err::<
                Option<String>,
                TaggingError,
            >(TaggingError::PromptUnavailable),
    {
        match self.prompt("\nEnter the annotation message if needed: (only return key to skip)") {
            Ok(answer) => Ok(annotation_of(answer)),
            Err(e) => Err(e),
        }
    }

    /// Writes the new tag to the store and announces it. On success exactly
    /// this tag is appended to the write record; on failure — the store
    /// rejecting the write — nothing has been written.
    fn add_new_tag(&mut self, new_tag: &Tag) -> (r: Result<(), TaggingError>)
        ensures
            final(self).opt == old(self).opt,
            final(self).git.discovered() == old(self).git.discovered(),
            final(self).answer_log == old(self).answer_log,
            r is Ok ==> final(self).git.writes() == old(self).git.writes().push(new_tag@),
            r is Err ==> final(self).git.writes() == old(self).git.writes() && r == Err::<
                (),
                TaggingError,
            >(TaggingError::StoreWriteRejected),
    {
        match self.git.add_tag(new_tag) {
            Ok(()) => {
                let mut text = String::from_str("\nCreated the new tag: ");
                let name = new_tag.to_string();
                text.append(name.as_str());
                self.prompt.show(text.as_str());
                Ok(())
            },
            Err(e) => Err(e),
        }
    }
}

} // verus!
