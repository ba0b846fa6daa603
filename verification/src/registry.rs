//! Dispatch of source files to parser adapters.
use crate::ir::Language;
use crate::parser::{ParseInput, ParsedFile, ParserAdapter, ParserError};
use crate::path::RepositoryPath;
use crate::sort;
use crate::sort::Ordered;
use crate::text;
use vstd::prelude::*;

verus! {

struct RegisteredParser<A> {
    language: Language,
    revision: String,
    adapter: A,
}

/// The adapters by language, at most one for each.
pub struct ParserRegistry<A> {
    parsers: Vec<RegisteredParser<A>>,
}

/// A language and the revision of its adapter, by which cached results are told
/// apart.
pub struct Revision {
    pub language: String,
    pub revision: String,
}

impl Ordered for Revision {
    open spec fn precedes(self, other: Revision) -> bool {
        if self.language@ != other.language@ {
            text::before(self.language@, other.language@)
        } else {
            text::before(self.revision@, other.revision@)
        }
    }

    proof fn order_laws(a: Revision, b: Revision, c: Revision) {
        text::law_text_order(a.language@, b.language@, c.language@);
        text::law_text_order(b.language@, a.language@, c.language@);
        text::law_text_order(b.language@, c.language@, a.language@);
        text::law_text_order(a.revision@, b.revision@, c.revision@);
        text::law_text_order(b.revision@, a.revision@, c.revision@);
        text::law_text_order(b.revision@, c.revision@, a.revision@);
    }

    fn comes_before(&self, other: &Revision) -> (before: bool) {
        if text::same_text(self.language.as_str(), other.language.as_str()) {
            text::text_before(self.revision.as_str(), other.revision.as_str())
        } else {
            text::text_before(self.language.as_str(), other.language.as_str())
        }
    }
}

/// The version of this package.
pub open spec fn package_version_text() -> Seq<char> {
    "0.1.0"@
}

pub fn package_version() -> (version: &'static str)
    ensures
        version@ == package_version_text(),
{
    "0.1.0"
}

/// A registered language: its key and the revision of its adapter.
pub type Entry = (Seq<char>, Seq<char>);

/// The languages and revisions of entries, in order.
pub open spec fn lists_revisions(entries: Seq<Entry>, revisions: Seq<Revision>) -> bool {
    exists|list: Seq<Revision>|
        {
            &&& revisions == #[trigger] sort::stable_sorted(list)
            &&& list.len() == entries.len()
            &&& forall|i: int|
                0 <= i < list.len() ==> ((#[trigger] list[i]).language@, list[i].revision@)
                    == entries[i]
        }
}

/// Whether a language is among registered ones.
pub open spec fn registered(entries: Seq<Entry>, key: Seq<char>) -> bool {
    exists|i: int| 0 <= i < entries.len() && (#[trigger] entries[i]).0 == key
}

/// The place of a language among entries: the first with its key, or the end where
/// there is none.
pub open spec fn place_of(entries: Seq<Entry>, key: Seq<char>) -> int
    decreases entries.len(),
{
    if entries.len() == 0 || entries[0].0 == key {
        0
    } else {
        1 + place_of(entries.drop_first(), key)
    }
}

proof fn lemma_place_of(entries: Seq<Entry>, key: Seq<char>, at: int)
    requires
        0 <= at <= entries.len(),
        forall|i: int| 0 <= i < at ==> (#[trigger] entries[i]).0 != key,
        at < entries.len() ==> entries[at].0 == key,
    ensures
        place_of(entries, key) == at,
    decreases entries.len(),
{
    if at > 0 {
        assert(entries[0].0 != key);
        assert forall|i: int| 0 <= i < at - 1 implies (#[trigger] entries.drop_first()[i]).0
            != key by {
            assert(entries.drop_first()[i] == entries[i + 1]);
        }
        lemma_place_of(entries.drop_first(), key, at - 1);
    }
}

/// A list with an item put in the place of another, or at its end.
pub open spec fn placed<T>(list: Seq<T>, at: int, item: T) -> Seq<T> {
    if at < list.len() {
        list.update(at, item)
    } else {
        list.push(item)
    }
}

/// The entries after a registration: a language keeps its place when its adapter
/// is replaced.
pub open spec fn with_entry(entries: Seq<Entry>, entry: Entry) -> Seq<Entry> {
    placed(entries, place_of(entries, entry.0), entry)
}

/// What is made of the result of an adapter for a language and a path.
pub open spec fn checked(
    language: Language,
    path: RepositoryPath,
    outcome: Result<ParsedFile, ParserError>,
) -> Result<ParsedFile, RegistryError> {
    match outcome {
        Err(error) => Err(RegistryError::Parser(error)),
        Ok(parsed) => if parsed.path@ != path@ {
            Err(RegistryError::PathMismatch { expected: path, actual: parsed.path })
        } else if parsed.language.key() != language.key() {
            Err(
                RegistryError::LanguageMismatch {
                    path,
                    expected: language,
                    actual: parsed.language,
                },
            )
        } else {
            Ok(parsed)
        },
    }
}

/// What becomes of an adapter that was run: its checked answer, or the panic that
/// ended it.
pub open spec fn contained(
    language: Language,
    path: RepositoryPath,
    ran: Result<Result<ParsedFile, ParserError>, String>,
) -> Result<ParsedFile, RegistryError> {
    match ran {
        Ok(outcome) => checked(language, path, outcome),
        Err(message) => Err(RegistryError::Panicked { path, message }),
    }
}

/// Refuses the result of an adapter that is about another path or language.
pub fn check_output(
    language: &Language,
    path: &RepositoryPath,
    outcome: Result<ParsedFile, ParserError>,
) -> (result: Result<ParsedFile, RegistryError>)
    ensures
        result == checked(*language, *path, outcome),
{
    let parsed = match outcome {
        Ok(parsed) => parsed,
        Err(error) => return Err(RegistryError::Parser(error)),
    };
    if !parsed.path.same(path) {
        return Err(RegistryError::PathMismatch { expected: path.clone(), actual: parsed.path });
    }
    if !parsed.language.same(language) {
        return Err(
            RegistryError::LanguageMismatch {
                path: path.clone(),
                expected: language.clone(),
                actual: parsed.language,
            },
        );
    }
    Ok(parsed)
}

impl<A: ParserAdapter> ParserRegistry<A> {
    /// The registered languages with the revisions of their adapters.
    pub closed spec fn entries(self) -> Seq<Entry> {
        self.parsers@.map_values(
            |parser: RegisteredParser<A>| (parser.language.key(), parser.revision@),
        )
    }

    /// The registered adapters, each at the place of its language's entry.
    pub closed spec fn adapters(self) -> Seq<A> {
        self.parsers@.map_values(|parser: RegisteredParser<A>| parser.adapter)
    }

    /// The registry after the registration of an adapter for a language.
    pub open spec fn registers(
        self,
        language: Language,
        adapter: A,
        revision: Seq<char>,
        after: ParserRegistry<A>,
    ) -> bool {
        &&& after.entries() == with_entry(self.entries(), (language.key(), revision))
        &&& after.adapters() == placed(
            self.adapters(),
            place_of(self.entries(), language.key()),
            adapter,
        )
    }

    /// Whether the adapter of a language may answer an input with an outcome.
    pub open spec fn answers(
        self,
        language: Language,
        input: ParseInput<'_>,
        outcome: Result<ParsedFile, ParserError>,
    ) -> bool {
        let at = place_of(self.entries(), language.key());
        &&& 0 <= at < self.adapters().len()
        &&& call_ensures(<A as ParserAdapter>::parse, (&self.adapters()[at], input), outcome)
    }

    /// Whether a guard may hand over an outcome of the adapter of a language on an input.
    pub open spec fn runs<G: Fn(&A, ParseInput<'_>) -> Result<
        Result<ParsedFile, ParserError>,
        String,
    >>(
        self,
        guard: G,
        language: Language,
        input: ParseInput<'_>,
        ran: Result<Result<ParsedFile, ParserError>, String>,
    ) -> bool {
        let at = place_of(self.entries(), language.key());
        &&& 0 <= at < self.adapters().len()
        &&& call_ensures(guard, (&self.adapters()[at], input), ran)
    }

    pub fn new() -> (registry: ParserRegistry<A>)
        ensures
            registry.entries() == Seq::<Entry>::empty(),
            registry.adapters() == Seq::<A>::empty(),
    {
        let registry = ParserRegistry { parsers: Vec::new() };
        assert(registry.entries() =~= Seq::<Entry>::empty());
        assert(registry.adapters() =~= Seq::<A>::empty());
        registry
    }

    /// Registers an adapter using the current package version as its cache revision.
    pub fn register(&mut self, adapter: A)
        ensures
            exists|language: Language|
                call_ensures(<A as ParserAdapter>::language, (&adapter,), language)
                    && #[trigger] old(self).registers(
                    language,
                    adapter,
                    package_version_text(),
                    *final(self),
                ),
    {
        self.register_versioned(adapter, package_version().to_owned());
    }

    /// Registers an adapter and an explicit revision used for cache invalidation.
    pub fn register_versioned(&mut self, adapter: A, revision: String)
        ensures
            exists|language: Language|
                call_ensures(<A as ParserAdapter>::language, (&adapter,), language)
                    && #[trigger] old(self).registers(language, adapter, revision@, *final(self)),
    {
        let language = adapter.language();
        self.register_for(language, adapter, revision);
    }

    /// Registers an adapter for a language.
    pub fn register_for(
        &mut self,
        language: Language,
        adapter: A,
        revision: String,
    )
        ensures
            old(self).registers(language, adapter, revision@, *final(self)),
    {
        let ghost before = self.entries();
        let ghost held = self.adapters();
        let found = self.find(&language);
        let ghost entry = (language.key(), revision@);
        let parser = RegisteredParser { language, revision, adapter };
        match found {
            Some(index) => {
                self.parsers.set(index, parser);
                proof {
                    lemma_place_of(before, entry.0, index as int);
                    assert(self.entries() =~= before.update(index as int, entry));
                    assert(self.adapters() =~= held.update(index as int, adapter));
                }
            },
            None => {
                self.parsers.push(parser);
                proof {
                    lemma_place_of(before, entry.0, before.len() as int);
                    assert(self.entries() =~= before.push(entry));
                    assert(self.adapters() =~= held.push(adapter));
                }
            },
        }
    }

    /// The place of the adapter for a language.
    fn find(&self, language: &Language) -> (found: Option<usize>)
        ensures
            match found {
                Some(index) => {
                    &&& index < self.parsers@.len()
                    &&& self.entries().len() == self.parsers@.len()
                    &&& self.entries()[index as int].0 == language.key()
                    &&& forall|i: int|
                        0 <= i < index ==> (#[trigger] self.entries()[i]).0 != language.key()
                },
                None => forall|i: int|
                    0 <= i < self.entries().len() ==> (#[trigger] self.entries()[i]).0
                        != language.key(),
            },
    {
        let mut index: usize = 0;
        while index < self.parsers.len()
            invariant
                index <= self.parsers@.len(),
                self.entries().len() == self.parsers@.len(),
                forall|i: int|
                    0 <= i < index ==> (#[trigger] self.entries()[i]).0 != language.key(),
            decreases self.parsers@.len() - index,
        {
            assert(self.entries()[index as int].0 == self.parsers@[index as int].language.key());
            if self.parsers[index].language.same(language) {
                return Some(index);
            }
            index = index + 1;
        }
        None
    }

    pub fn contains(&self, language: &Language) -> (known: bool)
        ensures
            known == registered(self.entries(), language.key()),
    {
        match self.find(language) {
            Some(index) => {
                assert(self.entries()[index as int].0 == language.key());
                true
            },
            None => false,
        }
    }

    /// Dispatches one file to the adapter of its language, with the input as it is, and
    /// checks what that adapter answers. An adapter that panics unwinds through here:
    /// [`ParserRegistry::parse_guarded`] is for adapters that may.
    pub fn parse(&self, language: &Language, input: ParseInput<'_>) -> (result: Result<
        ParsedFile,
        RegistryError,
    >)
        ensures
            !registered(self.entries(), language.key()) ==> result == Err::<
                ParsedFile,
                RegistryError,
            >(RegistryError::UnsupportedLanguage { path: *input.path, language: *language }),
            registered(self.entries(), language.key()) ==> exists|
                outcome: Result<ParsedFile, ParserError>,
            | #[trigger]
                self.answers(*language, input, outcome) && result == checked(
                    *language,
                    *input.path,
                    outcome,
                ),
    {
        match self.find(language) {
            None => Err(
                RegistryError::UnsupportedLanguage {
                    path: input.path.clone(),
                    language: language.clone(),
                },
            ),
            Some(index) => {
                assert(registered(self.entries(), language.key())) by {
                    assert(self.entries()[index as int].0 == language.key());
                }
                proof {
                    lemma_place_of(self.entries(), language.key(), index as int);
                }
                let outcome = self.parsers[index].adapter.parse(input);
                assert(self.answers(*language, input, outcome));
                check_output(language, input.path, outcome)
            },
        }
    }

    /// Dispatches one file to the adapter of its language by way of a guard, which runs
    /// the adapter on the input and hands over what it answers, or, where the adapter
    /// panicked, the message of the panic. A panic that was caught is reported and goes
    /// no further.
    pub fn parse_guarded<G>(&self, language: &Language, input: ParseInput<'_>, guard: &G) -> (
    result: Result<ParsedFile, RegistryError>) where
        G: Fn(&A, ParseInput<'_>) -> Result<Result<ParsedFile, ParserError>, String>,

        requires
            forall|i: int|
                0 <= i < self.adapters().len() ==> call_requires(
                    *guard,
                    (&#[trigger] self.adapters()[i], input),
                ),
        ensures
            !registered(self.entries(), language.key()) ==> result == Err::<
                ParsedFile,
                RegistryError,
            >(RegistryError::UnsupportedLanguage { path: *input.path, language: *language }),
            registered(self.entries(), language.key()) ==> exists|
                ran: Result<Result<ParsedFile, ParserError>, String>,
            | #[trigger]
                self.runs(*guard, *language, input, ran) && result == contained(
                    *language,
                    *input.path,
                    ran,
                ),
    {
        match self.find(language) {
            None => Err(
                RegistryError::UnsupportedLanguage {
                    path: input.path.clone(),
                    language: language.clone(),
                },
            ),
            Some(index) => {
                assert(registered(self.entries(), language.key())) by {
                    assert(self.entries()[index as int].0 == language.key());
                }
                proof {
                    lemma_place_of(self.entries(), language.key(), index as int);
                }
                let adapter = &self.parsers[index].adapter;
                assert(*adapter == self.adapters()[index as int]);
                let ran = guard(adapter, input);
                assert(self.runs(*guard, *language, input, ran));
                match ran {
                    Ok(outcome) => check_output(language, input.path, outcome),
                    Err(message) => Err(
                        RegistryError::Panicked { path: input.path.clone(), message },
                    ),
                }
            },
        }
    }

    /// The registered languages with their revisions, in order.
    pub fn revisions(&self) -> (revisions: Vec<Revision>)
        ensures
            lists_revisions(self.entries(), revisions@),
    {
        let mut revisions: Vec<Revision> = Vec::new();
        let mut index: usize = 0;
        while index < self.parsers.len()
            invariant
                index <= self.parsers@.len(),
                self.entries().len() == self.parsers@.len(),
                revisions@.len() == index,
                forall|i: int|
                    0 <= i < index ==> ((#[trigger] revisions@[i]).language@,
                        revisions@[i].revision@) == self.entries()[i],
            decreases self.parsers@.len() - index,
        {
            let parser = &self.parsers[index];
            assert(self.entries()[index as int] == (parser.language.key(), parser.revision@));
            revisions.push(
                Revision {
                    language: parser.language.key_text(),
                    revision: parser.revision.clone(),
                },
            );
            index = index + 1;
        }
        let ghost list = revisions@;
        sort::stable_sort(&mut revisions);
        assert(revisions@ == sort::stable_sorted(list));
        revisions
    }
}

impl<A: ParserAdapter> Default for ParserRegistry<A> {
    fn default() -> (registry: ParserRegistry<A>)
        ensures
            registry.entries() == Seq::<Entry>::empty(),
            registry.adapters() == Seq::<A>::empty(),
    {
        ParserRegistry::new()
    }
}

#[derive(Debug, Clone, PartialEq, Eq)]
pub enum RegistryError {
    UnsupportedLanguage { path: RepositoryPath, language: Language },
    Parser(ParserError),
    Panicked { path: RepositoryPath, message: String },
    PathMismatch { expected: RepositoryPath, actual: RepositoryPath },
    LanguageMismatch { path: RepositoryPath, expected: Language, actual: Language },
}

/// How a language is named in messages.
pub open spec fn language_name(language: Language, quoted: Seq<char>) -> Seq<char> {
    match language {
        Language::Rust => "Rust"@,
        Language::Python => "Python"@,
        Language::C => "C"@,
        Language::Cpp => "Cpp"@,
        Language::Java => "Java"@,
        Language::JavaScript => "JavaScript"@,
        Language::TypeScript => "TypeScript"@,
        Language::Go => "Go"@,
        Language::Other(_) => "Other("@ + quoted + ")"@,
    }
}

/// The name that a language of another kind has.
pub open spec fn other_name(language: Language) -> Seq<char> {
    match language {
        Language::Other(value) => value@,
        _ => Seq::empty(),
    }
}

fn name_language(language: &Language) -> (name: String)
    ensures
        name@ == language_name(*language, text::debug_text(other_name(*language))),
{
    match language {
        Language::Rust => "Rust".to_owned(),
        Language::Python => "Python".to_owned(),
        Language::C => "C".to_owned(),
        Language::Cpp => "Cpp".to_owned(),
        Language::Java => "Java".to_owned(),
        Language::JavaScript => "JavaScript".to_owned(),
        Language::TypeScript => "TypeScript".to_owned(),
        Language::Go => "Go".to_owned(),
        Language::Other(value) => {
            let mut name = "Other(".to_owned();
            let shown = text::quoted(value.as_str());
            name.push_str(shown.as_str());
            name.push_str(")");
            name
        },
    }
}

impl RegistryError {
    /// The file that an error is about.
    pub open spec fn concerns(self) -> RepositoryPath {
        match self {
            RegistryError::UnsupportedLanguage { path, .. } => path,
            RegistryError::Parser(error) => error.path,
            RegistryError::Panicked { path, .. } => path,
            RegistryError::PathMismatch { expected, .. } => expected,
            RegistryError::LanguageMismatch { path, .. } => path,
        }
    }

    pub fn path(&self) -> (path: &RepositoryPath)
        ensures
            *path == self.concerns(),
    {
        match self {
            RegistryError::UnsupportedLanguage { path, .. } => path,
            RegistryError::Parser(error) => &error.path,
            RegistryError::Panicked { path, .. } => path,
            RegistryError::PathMismatch { expected, .. } => expected,
            RegistryError::LanguageMismatch { path, .. } => path,
        }
    }

    /// The code of an error in diagnostics.
    pub open spec fn code_text(self) -> Seq<char> {
        match self {
            RegistryError::UnsupportedLanguage { .. } => "parser_not_registered"@,
            RegistryError::Parser(_) => "parse_error"@,
            RegistryError::Panicked { .. } => "parser_panic"@,
            RegistryError::PathMismatch { .. } => "parser_path_mismatch"@,
            RegistryError::LanguageMismatch { .. } => "parser_language_mismatch"@,
        }
    }

    pub fn code(&self) -> (code: &'static str)
        ensures
            code@ == self.code_text(),
    {
        match self {
            RegistryError::UnsupportedLanguage { .. } => "parser_not_registered",
            RegistryError::Parser(_) => "parse_error",
            RegistryError::Panicked { .. } => "parser_panic",
            RegistryError::PathMismatch { .. } => "parser_path_mismatch",
            RegistryError::LanguageMismatch { .. } => "parser_language_mismatch",
        }
    }

    /// What the error tells a reader.
    pub open spec fn message_text(self) -> Seq<char> {
        match self {
            RegistryError::UnsupportedLanguage { path, language } => "no parser is registered for "@
                + language_name(language, text::debug_text(other_name(language))) + " ("@ + path@
                + ")"@,
            RegistryError::Parser(error) => "failed to parse "@ + error.path@ + ": "@
                + error.message@,
            RegistryError::Panicked { path, message } => "parser panicked while parsing "@ + path@
                + ": "@ + message@,
            RegistryError::PathMismatch { expected, actual } => "parser returned path "@ + actual@
                + ", expected "@ + expected@,
            RegistryError::LanguageMismatch { path, expected, actual } => "parser returned language "@
                + language_name(actual, text::debug_text(other_name(actual))) + " for "@ + path@
                + ", expected "@ + language_name(expected, text::debug_text(other_name(expected))),
        }
    }

    /// The message of the error.
    pub fn to_string(&self) -> (message: String)
        ensures
            message@ == self.message_text(),
    {
        match self {
            RegistryError::UnsupportedLanguage { path, language } => {
                let mut message = "no parser is registered for ".to_owned();
                let name = name_language(language);
                message.push_str(name.as_str());
                message.push_str(" (");
                message.push_str(path.as_str());
                message.push_str(")");
                message
            },
            RegistryError::Parser(error) => {
                let mut message = "failed to parse ".to_owned();
                message.push_str(error.path.as_str());
                message.push_str(": ");
                message.push_str(error.message.as_str());
                message
            },
            RegistryError::Panicked { path, message: reason } => {
                let mut message = "parser panicked while parsing ".to_owned();
                message.push_str(path.as_str());
                message.push_str(": ");
                message.push_str(reason.as_str());
                message
            },
            RegistryError::PathMismatch { expected, actual } => {
                let mut message = "parser returned path ".to_owned();
                message.push_str(actual.as_str());
                message.push_str(", expected ");
                message.push_str(expected.as_str());
                message
            },
            RegistryError::LanguageMismatch { path, expected, actual } => {
                let mut message = "parser returned language ".to_owned();
                let name = name_language(actual);
                message.push_str(name.as_str());
                message.push_str(" for ");
                message.push_str(path.as_str());
                message.push_str(", expected ");
                let wanted = name_language(expected);
                message.push_str(wanted.as_str());
                message
            },
        }
    }
}

/// A file that is accepted from an adapter is the one that the adapter returned, and is
/// of the path and the language that were asked for. Any such file is accepted; every
/// refusal says what is wrong with what was returned.
pub proof fn law_accepted_file_is_the_one_asked_for(
    language: Language,
    path: RepositoryPath,
    outcome: Result<ParsedFile, ParserError>,
)
    ensures
        match checked(language, path, outcome) {
            Ok(parsed) => {
                &&& outcome == Ok::<ParsedFile, ParserError>(parsed)
                &&& parsed.path@ == path@
                &&& parsed.language.key() == language.key()
            },
            Err(RegistryError::Parser(error)) => outcome == Err::<ParsedFile, ParserError>(error),
            Err(RegistryError::PathMismatch { expected, actual }) => {
                &&& outcome matches Ok(parsed) && parsed.path == actual
                &&& expected == path
                &&& actual@ != path@
            },
            Err(RegistryError::LanguageMismatch { path: told, expected, actual }) => {
                &&& outcome matches Ok(parsed) && parsed.language == actual
                &&& told == path
                &&& expected == language
                &&& actual.key() != language.key()
            },
            Err(_) => false,
        },
        (outcome matches Ok(parsed) && parsed.path@ == path@ && parsed.language.key()
            == language.key()) ==> checked(language, path, outcome) is Ok,
{
}

/// Whether the adapter at `at` is the one that files of a language go to.
pub open spec fn serves(entries: Seq<Entry>, key: Seq<char>, at: int) -> bool {
    &&& 0 <= at < entries.len()
    &&& entries[at].0 == key
    &&& place_of(entries, key) == at
}

proof fn lemma_place_found(entries: Seq<Entry>, key: Seq<char>)
    ensures
        0 <= place_of(entries, key) <= entries.len(),
        place_of(entries, key) < entries.len() ==> entries[place_of(entries, key)].0 == key,
        forall|i: int| 0 <= i < place_of(entries, key) ==> (#[trigger] entries[i]).0 != key,
    decreases entries.len(),
{
    if entries.len() > 0 && entries[0].0 != key {
        let rest = entries.drop_first();
        lemma_place_found(rest, key);
        assert forall|i: int| 0 <= i < place_of(entries, key) implies (#[trigger] entries[i]).0
            != key by {
            if i > 0 {
                assert(rest[i - 1] == entries[i]);
            }
        }
        if place_of(rest, key) < rest.len() {
            assert(rest[place_of(rest, key)] == entries[place_of(rest, key) + 1]);
        }
    }
}

/// A registered adapter is the one that the files of its language go to from then on,
/// also where another one was registered for the language before. Every other language
/// keeps its adapter.
pub proof fn law_registered_adapter_serves_its_language<A: ParserAdapter>(
    before: ParserRegistry<A>,
    language: Language,
    adapter: A,
    revision: Seq<char>,
    after: ParserRegistry<A>,
    other: Seq<char>,
    at: int,
) -> (place: int)
    requires
        before.registers(language, adapter, revision, after),
    ensures
        serves(after.entries(), language.key(), place),
        after.adapters()[place] == adapter,
        after.entries()[place].1 == revision,
        other != language.key() && serves(before.entries(), other, at) ==> {
            &&& serves(after.entries(), other, at)
            &&& after.adapters()[at] == before.adapters()[at]
            &&& after.entries()[at] == before.entries()[at]
        },
        other != language.key() ==> registered(after.entries(), other) == registered(
            before.entries(),
            other,
        ),
{
    let key = language.key();
    let old_entries = before.entries();
    let new_entries = after.entries();
    lemma_place_found(old_entries, key);
    let place = place_of(old_entries, key);
    assert forall|i: int| 0 <= i < place implies (#[trigger] new_entries[i]).0 != key by {
        assert(new_entries[i] == old_entries[i]);
    }
    lemma_place_of(new_entries, key, place);
    if other != key {
        if serves(old_entries, other, at) {
            lemma_place_found(old_entries, other);
            assert forall|i: int| 0 <= i < at implies (#[trigger] new_entries[i]).0 != other by {
                assert(old_entries[i].0 != other);
            }
            lemma_place_of(new_entries, other, at);
        }
        if registered(old_entries, other) {
            let i = choose|i: int| 0 <= i < old_entries.len() && (#[trigger] old_entries[i]).0
                == other;
            assert(new_entries[i].0 == other);
        }
        if registered(new_entries, other) {
            let i = choose|i: int| 0 <= i < new_entries.len() && (#[trigger] new_entries[i]).0
                == other;
            assert(old_entries[i].0 == other);
        }
    }
    place
}

} // verus!
