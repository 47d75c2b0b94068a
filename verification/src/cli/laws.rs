//! What options say, whatever their order.
use vstd::prelude::*;

use crate::cli::{dashed, flag_of, row_of, settings_of, Flag, Settings};
use crate::fixed::Fixed;
use crate::number::Real;
use crate::sim::billing::hit_rate_is_a_share;
use crate::sim::{Policy, Report};
use crate::text::{u64_of, IntFault};

verus! {

/// The word of an option.
pub open spec fn word_of(flag: Flag) -> Seq<char> {
    match flag {
        Flag::Trace => "--trace"@,
        Flag::Scenario => "--scenario"@,
        Flag::Out => "--out"@,
        Flag::Provider => "--provider"@,
        Flag::Seed => "--seed"@,
        Flag::Days => "--days"@,
    }
}

/// A word names an option exactly where it is its word.
proof fn words_name_flags(word: Seq<char>, flag: Flag)
    ensures
        flag_of(word) == Some(flag) <==> word == word_of(flag),
{
    reveal_strlit("--trace");
    reveal_strlit("--scenario");
    reveal_strlit("--out");
    reveal_strlit("--provider");
    reveal_strlit("--seed");
    reveal_strlit("--days");
    assert("--trace"@[2] == 't');
    assert("--scenario"@[2] == 's' && "--scenario"@.len() == 10);
    assert("--out"@[2] == 'o');
    assert("--provider"@[2] == 'p');
    assert("--seed"@[2] == 's' && "--seed"@.len() == 6);
    assert("--days"@[2] == 'd');
}

/// Whether settings hold what an option was given.
pub open spec fn shows(s: Settings, flag: Flag, value: Seq<char>) -> bool {
    match flag {
        Flag::Trace => s.trace == Some(value),
        Flag::Scenario => s.scenario == Some(value),
        Flag::Out => s.out == Some(value),
        Flag::Provider => s.provider == value,
        Flag::Seed => u64_of(value) == Ok::<u64, IntFault>(s.seed),
        Flag::Days => u64_of(value) == Ok::<u64, IntFault>(s.days),
    }
}

/// Whether two settings agree on an option.
pub open spec fn agree(s: Settings, o: Settings, flag: Flag) -> bool {
    match flag {
        Flag::Trace => s.trace == o.trace,
        Flag::Scenario => s.scenario == o.scenario,
        Flag::Out => s.out == o.out,
        Flag::Provider => s.provider == o.provider,
        Flag::Seed => s.seed == o.seed,
        Flag::Days => s.days == o.days,
    }
}

/// Whether the word `j` is where an option may stand, from the word `i` on: the
/// first word, and every second one after it.
pub open spec fn is_place(words: Seq<Seq<char>>, i: int, j: int) -> bool {
    i <= j < words.len() && (j - i) % 2 == 0
}

/// Whether the word `j` is the last from `i` on to name an option.
pub open spec fn is_last(words: Seq<Seq<char>>, i: int, j: int, flag: Flag) -> bool {
    &&& is_place(words, i, j)
    &&& words[j] == word_of(flag)
    &&& forall|k: int| j < k && #[trigger] is_place(words, i, k) ==> words[k] != word_of(flag)
}

/// Whether the word `j` names an option whose value, the next word, can be taken.
pub open spec fn is_good(words: Seq<Seq<char>>, j: int) -> bool {
    &&& j + 1 < words.len()
    &&& exists|flag: Flag|
        {
            &&& words[j] == #[trigger] word_of(flag)
            &&& flag is Seed || flag is Days ==> u64_of(words[j + 1]) is Ok
        }
}

/// Whether settings hold an option as it was last given from the word `i` on, or
/// as before where it was not given.
pub open spec fn as_last_given(
    s: Settings,
    before: Settings,
    words: Seq<Seq<char>>,
    i: int,
    flag: Flag,
) -> bool {
    &&& forall|j: int| #[trigger] is_last(words, i, j, flag) ==> shows(s, flag, words[j + 1])
    &&& (forall|j: int| #[trigger] is_place(words, i, j) ==> words[j] != word_of(flag)) ==> agree(
        s,
        before,
        flag,
    )
}

impl Settings {
    /// Options are taken in any order: they are read where every second word is an
    /// option with a value that it takes, and not otherwise. Each option is then
    /// as it was last given, and what was not given is as before.
    #[verifier::rlimit(60)]
    pub proof fn options_are_as_last_given(self, words: Seq<Seq<char>>, i: int)
        requires
            0 <= i <= words.len(),
        ensures
            self.read(words, i) is Ok <==> forall|j: int| #[trigger]
                is_place(words, i, j) ==> is_good(words, j),
            self.read(words, i) is Ok ==> forall|flag: Flag| #[trigger]
                as_last_given(self.read(words, i)->Ok_0, self, words, i, flag),
        decreases words.len() - i,
    {
        if i < words.len() {
            assert(is_place(words, i, i));
            match flag_of(words[i]) {
                None => {
                    assert(!is_good(words, i)) by {
                        if is_good(words, i) {
                            let f = choose|flag: Flag|
                                {
                                    &&& words[i] == #[trigger] word_of(flag)
                                    &&& flag is Seed || flag is Days ==> u64_of(
                                        words[i + 1],
                                    ) is Ok
                                };
                            words_name_flags(words[i], f);
                        }
                    }
                },
                Some(f) => {
                    words_name_flags(words[i], f);
                    if i + 1 < words.len() {
                        assert(is_good(words, i) == self.set(f, words[i + 1]) is Ok) by {
                            if is_good(words, i) {
                                let g = choose|flag: Flag|
                                    {
                                        &&& words[i] == #[trigger] word_of(flag)
                                        &&& flag is Seed || flag is Days ==> u64_of(
                                            words[i + 1],
                                        ) is Ok
                                    };
                                words_name_flags(words[i], g);
                            }
                            if self.set(f, words[i + 1]) is Ok {
                                assert(words[i] == word_of(f));
                            }
                        }
                        if let Ok(t) = self.set(f, words[i + 1]) {
                            t.options_are_as_last_given(words, i + 2);
                            assert forall|j: int| j != i implies #[trigger] is_place(words, i, j)
                                == is_place(words, i + 2, j) by {
                                if i < j < words.len() && (j - i) % 2 == 0 {
                                    assert(j >= i + 2);
                                }
                            }
                            assert forall|j: int| #[trigger] is_place(words, i + 2, j) implies
                                is_place(words, i, j) by {}
                            if self.read(words, i) is Ok {
                                let s = self.read(words, i)->Ok_0;
                                assert forall|flag: Flag| #[trigger]
                                    as_last_given(s, self, words, i, flag) by {
                                    assert(as_last_given(s, t, words, i + 2, flag));
                                    self.one_more_option(words, i, t, s, f, flag);
                                }
                            }
                        }
                    } else {
                        assert(!is_good(words, i));
                    }
                },
            }
        }
    }

    #[verifier::rlimit(60)]
    proof fn one_more_option(
        self,
        words: Seq<Seq<char>>,
        i: int,
        t: Settings,
        s: Settings,
        f: Flag,
        flag: Flag,
    )
        requires
            0 <= i,
            i + 1 < words.len(),
            flag_of(words[i]) == Some(f),
            self.set(f, words[i + 1]) == Ok::<Settings, Seq<char>>(t),
            as_last_given(s, t, words, i + 2, flag),
        ensures
            as_last_given(s, self, words, i, flag),
    {
        words_name_flags(words[i], f);
        words_name_flags(words[i], flag);
        assert forall|j: int| j != i implies #[trigger] is_place(words, i, j) == is_place(
            words,
            i + 2,
            j,
        ) by {
            if i < j < words.len() && (j - i) % 2 == 0 {
                assert(j >= i + 2);
            }
        }
        assert(is_place(words, i, i));
        assert forall|j: int| #[trigger] is_last(words, i, j, flag) implies shows(
            s,
            flag,
            words[j + 1],
        ) by {
            if j == i {
                assert forall|k: int| #[trigger] is_place(words, i + 2, k) implies words[k]
                    != word_of(flag) by {
                    assert(is_place(words, i, k));
                }
                assert(agree(s, t, flag));
                assert(flag == f);
            } else {
                assert(is_place(words, i, j));
                assert(is_place(words, i + 2, j));
                assert forall|k: int| j < k && #[trigger] is_place(words, i + 2, k) implies words[k]
                    != word_of(flag) by {
                    assert(is_place(words, i, k));
                }
                assert(is_last(words, i + 2, j, flag));
            }
        }
        if forall|j: int| #[trigger] is_place(words, i, j) ==> words[j] != word_of(flag) {
            assert forall|k: int| #[trigger] is_place(words, i + 2, k) implies words[k] != word_of(
                flag,
            ) by {
                assert(is_place(words, i, k));
            }
            assert(words[i] != word_of(flag));
            assert(flag != f);
        }
    }
}

/// Without a word nothing is set: a run is of seven days at the seed 42, with the
/// provider gemini. A first word that does not begin with two dashes is the
/// scenario.
pub proof fn words_begin_with_the_scenario(words: Seq<Seq<char>>)
    ensures
        ({
            let none = Settings {
                trace: None,
                scenario: None,
                out: None,
                provider: "gemini"@,
                seed: 42,
                days: 7,
            };
            &&& words.len() > 0 && !dashed(words[0]) ==> settings_of(words) == (Settings {
                scenario: Some(words[0]),
                ..none
            }).read(words, 1)
            &&& words.len() == 0 || dashed(words[0]) ==> settings_of(words) == none.read(words, 0)
        }),
{
}

/// The line of a policy: what it spent; what it saved against no caching, but for
/// that itself; the share of requests it served from a cache, in percent, and how
/// often it created, extended and deleted, where that applies. The engine's is
/// marked.
pub proof fn lines_tell_their_report(p: Policy<Fixed>, r: Report<Fixed>, no_cache: Report<Fixed>)
    requires
        r.cached_requests <= r.requests <= 9_000_000_000,
    ensures
        ({
            let row = row_of(p, r, no_cache);
            &&& row.policy == p
            &&& row.cost == r.total_cost
            &&& row.saved == if p is NoCache {
                None
            } else {
                Some(r.saved(no_cache))
            }
            &&& row.hits is None <==> p is ReferenceOracle
            &&& row.hits is Some ==> row.hits->0.units == 100 * r.hits().units
            &&& row.ops == if p is NoCache || p is ReferenceOracle {
                None
            } else {
                Some((r.creates, r.extends, r.deletes))
            }
            &&& row.marked <==> p is Pcoe
        }),
{
    hit_rate_is_a_share(r);
    let h = r.hits().units as int;
    assert(Fixed::int_of(100).units == 100_000_000_000);
    assert((h * 100_000_000_000) / 1_000_000_000 == 100 * h);
}

} // verus!
