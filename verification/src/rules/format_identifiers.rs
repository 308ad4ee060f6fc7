//! The rule that gives listed identifiers their listed spelling.

use vstd::prelude::*;
use vstd::string::*;
use crate::chars::{lower, same_chars, spells, to_chars, to_lower};
use crate::formatted::FormattedTokens;
use crate::traits::LogicalLineFileFormatter;
use crate::lines::LogicalLine;
use crate::token::{TokenType, TokenView};

verus! {

/// One listed identifier: its spelling, and the spelling in small letters by which it is
/// found.
#[derive(Debug)]
struct Entry {
    key: Vec<char>,
    formatted: String,
}

/// Rewrites every identifier that is listed, whatever its case in the source, to the
/// spelling of the list. Where the list holds two spellings of one identifier, the later
/// one counts.
#[derive(Debug)]
pub struct FormatIdentifiers {
    entries: Vec<Entry>,
}

/// The map from each listed identifier in small letters to its spelling.
pub open spec fn identifier_map(identifiers: Seq<Seq<char>>) -> Map<Seq<char>, Seq<char>>
    decreases identifiers.len(),
{
    if identifiers.len() == 0 {
        Map::empty()
    } else {
        identifier_map(identifiers.drop_last()).insert(
            lower(identifiers.last()),
            identifiers.last(),
        )
    }
}

/// The texts of the strings, in order.
pub open spec fn texts(strings: Seq<String>) -> Seq<Seq<char>> {
    Seq::new(strings.len(), |i: int| strings[i]@)
}

/// The token as the rule leaves it: an identifier that is not ignored and is listed gets
/// the listed spelling, every other token stays as it is.
pub open spec fn rewritten(
    spellings: Map<Seq<char>, Seq<char>>,
    token: TokenView,
    ignored: bool,
) -> TokenView {
    if !ignored && token.token_type == TokenType::Identifier && spellings.contains_key(
        lower(token.content),
    ) {
        TokenView { content: spellings[lower(token.content)], ..token }
    } else {
        token
    }
}

/// Every spelling in the map stands under its own small letters.
proof fn lemma_spellings_stand_under_themselves(identifiers: Seq<Seq<char>>, key: Seq<char>)
    requires
        identifier_map(identifiers).contains_key(key),
    ensures
        lower(identifier_map(identifiers)[key]) == key,
    decreases identifiers.len(),
{
    if identifiers.len() > 0 {
        if lower(identifiers.last()) != key {
            lemma_spellings_stand_under_themselves(identifiers.drop_last(), key);
        }
    }
}

/// An identifier that is listed at `j` and nowhere behind `j` has the spelling at `j`.
proof fn lemma_last_spelling_counts(identifiers: Seq<Seq<char>>, key: Seq<char>, j: int)
    requires
        0 <= j < identifiers.len(),
        lower(identifiers[j]) == key,
        forall|i: int| j < i < identifiers.len() ==> lower(#[trigger] identifiers[i]) != key,
    ensures
        identifier_map(identifiers).contains_key(key),
        identifier_map(identifiers)[key] == identifiers[j],
    decreases identifiers.len(),
{
    if j < identifiers.len() - 1 {
        let front = identifiers.drop_last();
        assert(lower(identifiers[identifiers.len() - 1]) != key);
        assert forall|i: int| j < i < front.len() implies lower(#[trigger] front[i]) != key by {
            assert(front[i] == identifiers[i]);
        }
        lemma_last_spelling_counts(front, key, j);
    }
}

/// An identifier that is listed nowhere has no spelling.
proof fn lemma_unlisted(identifiers: Seq<Seq<char>>, key: Seq<char>)
    requires
        forall|i: int| 0 <= i < identifiers.len() ==> lower(#[trigger] identifiers[i]) != key,
    ensures
        !identifier_map(identifiers).contains_key(key),
    decreases identifiers.len(),
{
    if identifiers.len() > 0 {
        let front = identifiers.drop_last();
        assert(lower(identifiers[identifiers.len() - 1]) != key);
        assert forall|i: int| 0 <= i < front.len() implies lower(#[trigger] front[i]) != key by {
            assert(front[i] == identifiers[i]);
        }
        lemma_unlisted(front, key);
    }
}

impl FormatIdentifiers {
    /// The listed spellings, in the order of the list.
    closed spec fn spellings(&self) -> Seq<Seq<char>> {
        Seq::new(self.entries.len() as nat, |i: int| self.entries[i].formatted@)
    }

    #[verifier::type_invariant]
    closed spec fn keys_are_small(&self) -> bool {
        forall|i: int|
            0 <= i < self.entries.len() ==> (#[trigger] self.entries[i]).key@ == lower(
                self.entries[i].formatted@,
            )
    }

    /// The rule for the listed identifiers.
    pub fn new(identifiers: Vec<String>) -> (rule: Self)
        ensures
            rule@ == identifier_map(texts(identifiers@)),
    {
        let mut entries: Vec<Entry> = Vec::new();
        for formatted in it: identifiers
            invariant
                it.seq() == identifiers@,
                entries.len() == it.index(),
                forall|i: int|
                    0 <= i < entries.len() ==> (#[trigger] entries[i]).formatted@ == identifiers[i]@
                        && entries[i].key@ == lower(identifiers[i]@),
        {
            let chars = to_chars(formatted.as_str());
            let key = to_lower(&chars, 0, chars.len());
            assert(chars@.subrange(0, chars.len() as int) =~= chars@);
            entries.push(Entry { key, formatted });
        }
        let rule = FormatIdentifiers { entries };
        assert(rule.spellings() =~= texts(identifiers@));
        rule
    }

    /// The position of the entry that counts for the identifier, given in small letters.
    fn find(&self, small: &Vec<char>) -> (found: Option<usize>)
        ensures
            found matches Some(j) ==> j < self.entries.len() && self@.contains_key(small@)
                && self@[small@] == self.entries[j as int].formatted@,
            found is None ==> !self@.contains_key(small@),
    {
        proof {
            use_type_invariant(self);
        }
        let mut j: usize = self.entries.len();
        while j > 0
            invariant
                j <= self.entries.len(),
                self.keys_are_small(),
                forall|i: int|
                    j <= i < self.entries.len() ==> lower(#[trigger] self.spellings()[i]) != small@,
            decreases j,
        {
            j -= 1;
            if same_chars(&self.entries[j].key, small) {
                proof {
                    lemma_last_spelling_counts(self.spellings(), small@, j as int);
                }
                return Some(j);
            }
        }
        proof {
            lemma_unlisted(self.spellings(), small@);
        }
        None
    }
}

/// The tokens as the rule leaves them.
pub open spec fn respelled(
    spellings: Map<Seq<char>, Seq<char>>,
    tokens: Seq<TokenView>,
    ignored: Seq<bool>,
) -> Seq<TokenView> {
    Seq::new(tokens.len(), |i: int| rewritten(spellings, tokens[i], ignored[i]))
}

impl LogicalLineFileFormatter for FormatIdentifiers {
    open spec fn formatted(&self, tokens: Seq<TokenView>, ignored: Seq<bool>) -> Seq<TokenView> {
        respelled(self@, tokens, ignored)
    }

    /// Rewrites the identifiers among the tokens that are listed and not ignored.
    fn format(&self, formatted_tokens: &mut FormattedTokens, _input: &[LogicalLine])
        ensures
            final(formatted_tokens).ignored() == old(formatted_tokens).ignored(),
            final(formatted_tokens).tokens() == respelled(
                self@,
                old(formatted_tokens).tokens(),
                old(formatted_tokens).ignored(),
            ),
    {
        let ghost tokens = formatted_tokens.tokens();
        let ghost ignored = formatted_tokens.ignored();
        if self.entries.len() == 0 {
            proof {
                lemma_unlisted_all(self.spellings());
                assert(formatted_tokens.tokens() =~= respelled(self@, tokens, ignored));
            }
            return ;
        }
        let mut i: usize = 0;
        while i < formatted_tokens.items.len()
            invariant
                i <= formatted_tokens.items.len(),
                formatted_tokens.items.len() == tokens.len(),
                formatted_tokens.ignored() == ignored,
                ignored.len() == tokens.len(),
                forall|k: int|
                    0 <= k < i ==> (#[trigger] formatted_tokens.tokens()[k]) == rewritten(
                        self@,
                        tokens[k],
                        ignored[k],
                    ),
                forall|k: int|
                    i <= k < tokens.len() ==> (#[trigger] formatted_tokens.tokens()[k]) == tokens[k],
            decreases formatted_tokens.items.len() - i,
        {
            let ghost before = formatted_tokens.tokens();
            assert(before[i as int] == tokens[i as int]);
            assert(ignored[i as int] == formatted_tokens.items[i as int].ignored);
            assert(before[i as int] == formatted_tokens.items[i as int].token@);
            if !formatted_tokens.items[i].ignored && formatted_tokens.items[i].token.get_token_type()
                == TokenType::Identifier {
                let content = to_chars(formatted_tokens.items[i].token.get_content());
                let small = to_lower(&content, 0, content.len());
                assert(content@.subrange(0, content.len() as int) =~= content@);
                match self.find(&small) {
                    Some(j) => {
                        if !spells(&content, self.entries[j].formatted.as_str()) {
                            let spelling = self.entries[j].formatted.clone();
                            formatted_tokens.items[i].token.set_content(spelling);
                        }
                    },
                    None => {},
                }
            }
            assert(formatted_tokens.ignored() =~= ignored);
            assert(formatted_tokens.tokens()[i as int] == formatted_tokens.items[i as int].token@);
            assert(formatted_tokens.tokens()[i as int] == rewritten(
                self@,
                tokens[i as int],
                ignored[i as int],
            ));
            assert forall|k: int| 0 <= k < i implies (#[trigger] formatted_tokens.tokens()[k])
                == rewritten(self@, tokens[k], ignored[k]) by {
                assert(formatted_tokens.tokens()[k] == before[k]);
            }
            assert forall|k: int| i < k < tokens.len() implies (#[trigger] formatted_tokens.tokens()[k])
                == tokens[k] by {
                assert(formatted_tokens.tokens()[k] == before[k]);
            }
            i += 1;
        }
        assert(formatted_tokens.tokens() =~= respelled(self@, tokens, ignored));
    }
}

/// An empty list gives no identifier a spelling.
proof fn lemma_unlisted_all(identifiers: Seq<Seq<char>>)
    requires
        identifiers.len() == 0,
    ensures
        identifier_map(identifiers) == Map::<Seq<char>, Seq<char>>::empty(),
{
}

impl View for FormatIdentifiers {
    type V = Map<Seq<char>, Seq<char>>;

    closed spec fn view(&self) -> Map<Seq<char>, Seq<char>> {
        identifier_map(self.spellings())
    }
}

/// The rule changes nothing but the case of ASCII letters, and only in the content of
/// tokens; it leaves ignored tokens alone; and applying it twice is applying it once.
pub proof fn lemma_respelling_changes_case_only(
    rule: FormatIdentifiers,
    token: TokenView,
    ignored: bool,
)
    ensures
        lower(rewritten(rule@, token, ignored).content) == lower(token.content),
        rewritten(rule@, token, ignored).token_type == token.token_type,
        rewritten(rule@, token, ignored).leading_whitespace == token.leading_whitespace,
        ignored ==> rewritten(rule@, token, ignored) == token,
        rewritten(rule@, rewritten(rule@, token, ignored), ignored) == rewritten(
            rule@,
            token,
            ignored,
        ),
{
    let key = lower(token.content);
    if !ignored && token.token_type == TokenType::Identifier && rule@.contains_key(key) {
        lemma_spellings_stand_under_themselves(rule.spellings(), key);
    }
}

} // verus!
