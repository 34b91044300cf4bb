use vstd::prelude::*;
use vstd::string::*;

verus! {

/// The relay serves reads.
pub const READ: u64 = 1;

/// The relay accepts writes.
pub const WRITE: u64 = 2;

/// The relay is advertised to others.
pub const ADVERTISE: u64 = 4;

/// The relay is an inbox.
pub const INBOX: u64 = 8;

/// The relay is an outbox.
pub const OUTBOX: u64 = 16;

/// The relay is used to discover others' relays.
pub const DISCOVER: u64 = 32;

/// A known relay: its URL, its usage-capability bits and its rank.
#[derive(Debug, Clone)]
pub struct RelayDescriptor {
    pub url: String,
    pub usage_bits: u64,
    pub rank: u64,
}

/// `r` has every bit of `bits`.
pub open spec fn has_bits(r: RelayDescriptor, bits: u64) -> bool {
    r.usage_bits & bits == bits
}

impl RelayDescriptor {
    pub fn has_usage_bits(&self, bits: u64) -> (r: bool)
        ensures
            r == has_bits(*self, bits),
    {
        self.usage_bits & bits == bits
    }
}

/// `a` comes strictly before `b` in lexicographic order of characters.
pub open spec fn lex_lt(a: Seq<char>, b: Seq<char>) -> bool
    decreases a.len(),
{
    if b.len() == 0 {
        false
    } else if a.len() == 0 {
        true
    } else if a[0] != b[0] {
        a[0] < b[0]
    } else {
        lex_lt(a.drop_first(), b.drop_first())
    }
}

/// Whether `a` comes strictly before `b` in lexicographic order of characters.
pub fn str_lt(a: &str, b: &str) -> (r: bool)
    ensures
        r == lex_lt(a@, b@),
{
    let la = a.unicode_len();
    let lb = b.unicode_len();
    let mut i: usize = 0;
    assert(a@.skip(0) =~= a@);
    assert(b@.skip(0) =~= b@);
    while i < la && i < lb
        invariant
            la == a@.len(),
            lb == b@.len(),
            i <= la,
            i <= lb,
            lex_lt(a@, b@) == lex_lt(a@.skip(i as int), b@.skip(i as int)),
        decreases la - i,
    {
        let ca = a.get_char(i);
        let cb = b.get_char(i);
        assert(a@.skip(i as int).drop_first() =~= a@.skip(i + 1));
        assert(b@.skip(i as int).drop_first() =~= b@.skip(i + 1));
        if ca != cb {
            return ca < cb;
        }
        i = i + 1;
    }
    i < lb
}

/// `x` is in the list of connected relay URLs.
pub open spec fn listed(connected: Seq<String>, x: Seq<char>) -> bool {
    exists|k: int| 0 <= k < connected.len() && (#[trigger] connected[k])@ == x
}

/// Relay `a` (connected or not as `ca`) is preferred to `b` (as `cb`): a connected
/// relay before one that is not, then a higher rank, then the lower URL.
pub open spec fn preferred(a: RelayDescriptor, ca: bool, b: RelayDescriptor, cb: bool) -> bool {
    ||| ca && !cb
    ||| ca == cb && a.rank > b.rank
    ||| ca == cb && a.rank == b.rank && lex_lt(a.url@, b.url@)
}

/// Whether `url` is in the list of connected relay URLs.
pub fn is_listed(connected: &Vec<String>, url: &String) -> (r: bool)
    ensures
        r == listed(connected@, url@),
{
    let mut k: usize = 0;
    while k < connected.len()
        invariant
            k <= connected@.len(),
            forall|q: int| 0 <= q < k ==> (#[trigger] connected@[q])@ != url@,
        decreases connected@.len() - k,
    {
        if connected[k].eq(url) {
            return true;
        }
        k = k + 1;
    }
    false
}

/// The position in `known` of the relay that best covers a need for the usage
/// bits `need`, or `None` when no known relay has them all.
pub fn best_relay_for(known: &Vec<RelayDescriptor>, connected: &Vec<String>, need: u64) -> (r: Option<usize>)
    ensures
        r is None <==> forall|j: int| 0 <= j < known@.len() ==> !has_bits(#[trigger] known@[j], need),
        r matches Some(i) ==> i < known@.len() && has_bits(known@[i as int], need) && forall|j: int|
            0 <= j < known@.len() && has_bits(#[trigger] known@[j], need) ==> !preferred(
                known@[j],
                listed(connected@, known@[j].url@),
                known@[i as int],
                listed(connected@, known@[i as int].url@),
            ),
{
    let mut best: Option<usize> = None;
    let mut best_connected = false;
    let mut j: usize = 0;
    while j < known.len()
        invariant
            j <= known@.len(),
            best is None <==> forall|q: int| 0 <= q < j ==> !has_bits(#[trigger] known@[q], need),
            best matches Some(i) ==> i < j && has_bits(known@[i as int], need) && best_connected == listed(
                connected@,
                known@[i as int].url@,
            ) && forall|q: int|
                0 <= q < j && has_bits(#[trigger] known@[q], need) ==> !preferred(
                    known@[q],
                    listed(connected@, known@[q].url@),
                    known@[i as int],
                    best_connected,
                ),
        decreases known@.len() - j,
    {
        let cand = &known[j];
        if cand.has_usage_bits(need) {
            let c = is_listed(connected, &cand.url);
            match best {
                None => {
                    proof {
                        lemma_lex_irreflexive(cand.url@);
                    }
                    best = Some(j);
                    best_connected = c;
                },
                Some(i) => {
                    let cur = &known[i];
                    let better = (c && !best_connected) || (c == best_connected && cand.rank > cur.rank) || (
                    c == best_connected && cand.rank == cur.rank && str_lt(cand.url.as_str(), cur.url.as_str()));
                    if better {
                        proof {
                            assert forall|q: int|
                                0 <= q < j + 1 && has_bits(#[trigger] known@[q], need) implies !preferred(
                                known@[q],
                                listed(connected@, known@[q].url@),
                                known@[j as int],
                                c,
                            ) by {
                                if q < j {
                                    lemma_preferred_transitive(
                                        known@[q],
                                        listed(connected@, known@[q].url@),
                                        known@[i as int],
                                        best_connected,
                                        known@[j as int],
                                        c,
                                    );
                                } else {
                                    lemma_lex_irreflexive(known@[j as int].url@);
                                }
                            }
                        }
                        best = Some(j);
                        best_connected = c;
                    } else {
                        assert(!preferred(known@[j as int], c, known@[i as int], best_connected));
                    }
                },
            }
        }
        j = j + 1;
    }
    best
}

proof fn lemma_lex_irreflexive(a: Seq<char>)
    ensures
        !lex_lt(a, a),
    decreases a.len(),
{
    if a.len() > 0 {
        lemma_lex_irreflexive(a.drop_first());
    }
}

proof fn lemma_lex_asymmetric_total(a: Seq<char>, b: Seq<char>)
    ensures
        lex_lt(a, b) ==> !lex_lt(b, a),
        !lex_lt(a, b) && !lex_lt(b, a) ==> a == b,
    decreases a.len(),
{
    if a.len() > 0 && b.len() > 0 && a[0] == b[0] {
        lemma_lex_asymmetric_total(a.drop_first(), b.drop_first());
        if a.drop_first() == b.drop_first() {
            assert(a =~= seq![a[0]] + a.drop_first());
            assert(b =~= seq![b[0]] + b.drop_first());
        }
    }
    if a.len() == 0 && b.len() == 0 {
        assert(a =~= b);
    }
}

proof fn lemma_lex_transitive(a: Seq<char>, b: Seq<char>, c: Seq<char>)
    requires
        lex_lt(a, b),
        lex_lt(b, c),
    ensures
        lex_lt(a, c),
    decreases a.len(),
{
    if a.len() > 0 && a[0] == b[0] && b[0] == c[0] {
        lemma_lex_transitive(a.drop_first(), b.drop_first(), c.drop_first());
    }
}

/// If `x` is not preferred to `y`, and `z` is preferred to `y`, then `x` is not
/// preferred to `z`.
proof fn lemma_preferred_transitive(
    x: RelayDescriptor,
    cx: bool,
    y: RelayDescriptor,
    cy: bool,
    z: RelayDescriptor,
    cz: bool,
)
    requires
        !preferred(x, cx, y, cy),
        preferred(z, cz, y, cy),
    ensures
        !preferred(x, cx, z, cz),
{
    if preferred(x, cx, z, cz) {
        if cx == cz && x.rank == z.rank && lex_lt(x.url@, z.url@) && cz == cy && z.rank == y.rank {
            lemma_lex_transitive(x.url@, z.url@, y.url@);
        }
    }
}

} // verus!
