//! The candidate ports of a scan: a default list, extended by the caller.

use vstd::prelude::*;

verus! {

/// The ports that common development servers listen on, in ascending order.
///
/// 1420 is left out because the desktop companion serves its own interface
/// there, and 5000 because an unrelated system service often occupies it.
pub open spec fn default_port_list() -> Seq<u16> {
    seq![3000u16, 3001u16, 4200u16, 4321u16, 5173u16, 8000u16, 8080u16, 8888u16, 9000u16, 9090u16]
}

/// The elements of `s` in the order in which they first occur, each of them once.
pub open spec fn first_occurrences(s: Seq<u16>) -> Seq<u16>
    decreases s.len(),
{
    if s.len() == 0 {
        Seq::<u16>::empty()
    } else {
        let earlier = first_occurrences(s.drop_last());
        if earlier.contains(s.last()) {
            earlier
        } else {
            earlier.push(s.last())
        }
    }
}

/// `first_occurrences` keeps exactly the values of its argument.
pub proof fn lemma_first_occurrences_members(s: Seq<u16>)
    ensures
        forall|p: u16| first_occurrences(s).contains(p) <==> s.contains(p),
    decreases s.len(),
{
    if s.len() > 0 {
        let front = s.drop_last();
        let earlier = first_occurrences(front);
        lemma_first_occurrences_members(front);
        assert forall|p: u16| first_occurrences(s).contains(p) <==> s.contains(p) by {
            if s.contains(p) {
                let i = choose|i: int| 0 <= i < s.len() && s[i] == p;
                if i < front.len() {
                    assert(front[i] == p);
                    assert(front.contains(p));
                    assert(earlier.contains(p));
                    let k = choose|k: int| 0 <= k < earlier.len() && earlier[k] == p;
                    assert(first_occurrences(s)[k] == p);
                } else if !earlier.contains(s.last()) {
                    assert(first_occurrences(s)[earlier.len() as int] == p);
                }
            }
            if first_occurrences(s).contains(p) {
                let k = choose|k: int| 0 <= k < first_occurrences(s).len() && first_occurrences(s)[k] == p;
                if k < earlier.len() {
                    assert(earlier[k] == p);
                    assert(front.contains(p));
                    let i = choose|i: int| 0 <= i < front.len() && front[i] == p;
                    assert(s[i] == p);
                } else {
                    assert(s[s.len() - 1] == p);
                }
            }
        }
    }
}

/// `first_occurrences` never yields a value twice and never grows its argument.
pub proof fn lemma_first_occurrences_distinct(s: Seq<u16>)
    ensures
        first_occurrences(s).no_duplicates(),
        first_occurrences(s).len() <= s.len(),
    decreases s.len(),
{
    if s.len() > 0 {
        lemma_first_occurrences_distinct(s.drop_last());
    }
}

/// Values that come after `a` leave what `a` contributed where it was.
pub proof fn lemma_first_occurrences_prefix(a: Seq<u16>, b: Seq<u16>)
    ensures
        first_occurrences(a).is_prefix_of(first_occurrences(a + b)),
    decreases b.len(),
{
    if b.len() == 0 {
        assert(a + b == a);
    } else {
        lemma_first_occurrences_prefix(a, b.drop_last());
        assert((a + b).drop_last() == a + b.drop_last());
    }
}

/// Whether `at` is the first place at which `s` holds `value`.
pub open spec fn first_at(s: Seq<u16>, value: u16, at: int) -> bool {
    &&& 0 <= at < s.len()
    &&& s[at] == value
    &&& forall|k: int| 0 <= k < at ==> s[k] != value
}

/// The values of `first_occurrences(s)` stand in the order in which they first
/// occur in `s`: of two of them, the earlier one is met first in `s` as well.
pub proof fn lemma_first_occurrences_ordered(s: Seq<u16>, i: int, j: int, a: int, b: int)
    requires
        0 <= i < j < first_occurrences(s).len(),
        first_at(s, first_occurrences(s)[i], a),
        first_at(s, first_occurrences(s)[j], b),
    ensures
        a < b,
    decreases s.len(),
{
    let front = s.drop_last();
    let earlier = first_occurrences(front);
    let x = first_occurrences(s)[i];
    let y = first_occurrences(s)[j];
    lemma_first_occurrences_members(front);
    assert(earlier[i] == x);
    assert(earlier.contains(x));
    assert(front.contains(x));
    let ax = choose|k: int| 0 <= k < front.len() && front[k] == x;
    assert(s[ax] == x);
    assert(a <= ax);
    if j < earlier.len() {
        assert(earlier[j] == y);
        assert(earlier.contains(y));
        assert(front.contains(y));
        let by = choose|k: int| 0 <= k < front.len() && front[k] == y;
        assert(s[by] == y);
        assert(b <= by);
        assert(first_at(front, x, a));
        assert(first_at(front, y, b));
        lemma_first_occurrences_ordered(front, i, j, a, b);
    } else {
        assert(y == s.last());
        assert(!front.contains(y));
        if b < front.len() {
            assert(front[b] == y);
        }
    }
}

/// A sequence without repetition is left as it is.
pub proof fn lemma_first_occurrences_of_distinct(s: Seq<u16>)
    requires
        s.no_duplicates(),
    ensures
        first_occurrences(s) == s,
    decreases s.len(),
{
    if s.len() > 0 {
        let front = s.drop_last();
        lemma_first_occurrences_of_distinct(front);
        lemma_first_occurrences_members(front);
        if front.contains(s.last()) {
            let i = choose|i: int| 0 <= i < front.len() && front[i] == s.last();
            assert(s[i] == s[s.len() - 1]);
        }
        assert(front.push(s.last()) == s);
    }
}

/// A value that has occurred before adds nothing: taking it out of the sequence
/// leaves the first occurrences unchanged.
pub proof fn lemma_repeated_value_is_dropped(s: Seq<u16>, k: int)
    requires
        0 <= k < s.len(),
        s.take(k).contains(s[k]),
    ensures
        first_occurrences(s) == first_occurrences(s.remove(k)),
    decreases s.len(),
{
    let front = s.drop_last();
    if k == s.len() - 1 {
        assert(s.remove(k) == front);
        assert(s.take(k) == front);
        lemma_first_occurrences_members(front);
    } else {
        assert(front.take(k) == s.take(k));
        lemma_repeated_value_is_dropped(front, k);
        assert(s.remove(k).drop_last() == front.remove(k));
        assert(s.remove(k).last() == s.last());
    }
}

/// Supplying a default port among the extra ports changes neither the resulting
/// port set nor, in particular, its size.
pub proof fn lemma_default_among_extras(defaults: Seq<u16>, extra_ports: Seq<u16>, k: int)
    requires
        0 <= k < extra_ports.len(),
        defaults.contains(extra_ports[k]),
    ensures
        first_occurrences(defaults + extra_ports) == first_occurrences(
            defaults + extra_ports.remove(k),
        ),
        first_occurrences(defaults + extra_ports).len() == first_occurrences(
            defaults + extra_ports.remove(k),
        ).len(),
{
    let s = defaults + extra_ports;
    let at = defaults.len() + k;
    let i = choose|i: int| 0 <= i < defaults.len() && defaults[i] == extra_ports[k];
    assert(s.take(at)[i] == s[at]);
    lemma_repeated_value_is_dropped(s, at);
    assert(s.remove(at) == defaults + extra_ports.remove(k));
}

/// The default ports as a vector.
pub fn default_ports() -> (ports: Vec<u16>)
    ensures
        ports@ == default_port_list(),
{
    let mut ports: Vec<u16> = Vec::new();
    ports.push(3000);
    ports.push(3001);
    ports.push(4200);
    ports.push(4321);
    ports.push(5173);
    ports.push(8000);
    ports.push(8080);
    ports.push(8888);
    ports.push(9000);
    ports.push(9090);
    assert(ports@ == default_port_list());
    ports
}

/// Whether `port` is among `ports`.
fn holds_port(ports: &Vec<u16>, port: u16) -> (found: bool)
    ensures
        found == ports@.contains(port),
{
    let mut i: usize = 0;
    while i < ports.len()
        invariant
            i <= ports.len(),
            forall|j: int| 0 <= j < i ==> ports@[j] != port,
        decreases ports.len() - i,
    {
        if ports[i] == port {
            return true;
        }
        i += 1;
    }
    false
}

/// The ports that one scan probes: pairwise distinct, in a reproducible order.
pub struct PortSet {
    ports: Vec<u16>,
}

impl PortSet {
    #[verifier::type_invariant]
    spec fn distinct(self) -> bool {
        self.ports@.no_duplicates()
    }

    /// The ports in the order in which they are held.
    pub closed spec fn view(&self) -> Seq<u16> {
        self.ports@
    }

    /// The port set for a default list and the caller's extra ports: the
    /// defaults first, then each extra port that was not yet present, in the
    /// order supplied.
    pub fn build(defaults: &Vec<u16>, extra_ports: &Vec<u16>) -> (set: PortSet)
        ensures
            set@ == first_occurrences(defaults@ + extra_ports@),
            set@.no_duplicates(),
            forall|p: u16| set@.contains(p) <==> defaults@.contains(p) || extra_ports@.contains(p),
            defaults@.no_duplicates() ==> defaults@.is_prefix_of(set@),
    {
        let mut ports: Vec<u16> = Vec::new();
        let mut i: usize = 0;
        while i < defaults.len()
            invariant
                i <= defaults.len(),
                ports@ == first_occurrences(defaults@.take(i as int)),
            decreases defaults.len() - i,
        {
            let port = defaults[i];
            proof {
                assert(defaults@.take(i + 1).drop_last() == defaults@.take(i as int));
            }
            if !holds_port(&ports, port) {
                ports.push(port);
            }
            i += 1;
        }
        proof {
            assert(defaults@.take(i as int) == defaults@);
            assert(defaults@ + extra_ports@.take(0) == defaults@);
        }
        let mut k: usize = 0;
        while k < extra_ports.len()
            invariant
                k <= extra_ports.len(),
                ports@ == first_occurrences(defaults@ + extra_ports@.take(k as int)),
            decreases extra_ports.len() - k,
        {
            let port = extra_ports[k];
            proof {
                assert((defaults@ + extra_ports@.take(k + 1)).drop_last() == defaults@
                    + extra_ports@.take(k as int));
            }
            if !holds_port(&ports, port) {
                ports.push(port);
            }
            k += 1;
        }
        proof {
            let all = defaults@ + extra_ports@;
            assert(extra_ports@.take(k as int) == extra_ports@);
            lemma_first_occurrences_distinct(all);
            lemma_first_occurrences_members(all);
            assert forall|p: u16| ports@.contains(p) <==> defaults@.contains(p)
                || extra_ports@.contains(p) by {
                assert(ports@.contains(p) <==> all.contains(p));
                if all.contains(p) {
                    let j = choose|j: int| 0 <= j < all.len() && all[j] == p;
                    if j < defaults@.len() {
                        assert(defaults@[j] == p);
                    } else {
                        assert(extra_ports@[j - defaults@.len()] == p);
                    }
                }
                if defaults@.contains(p) {
                    let j = choose|j: int| 0 <= j < defaults@.len() && defaults@[j] == p;
                    assert(all[j] == p);
                }
                if extra_ports@.contains(p) {
                    let j = choose|j: int| 0 <= j < extra_ports@.len() && extra_ports@[j] == p;
                    assert(all[defaults@.len() + j] == p);
                }
            }
            if defaults@.no_duplicates() {
                lemma_first_occurrences_prefix(defaults@, extra_ports@);
                lemma_first_occurrences_of_distinct(defaults@);
            }
        }
        PortSet { ports }
    }

    /// The port set for the default ports and the caller's extra ports.
    pub fn with_extras(extra_ports: &Vec<u16>) -> (set: PortSet)
        ensures
            set@ == first_occurrences(default_port_list() + extra_ports@),
            set@.no_duplicates(),
            forall|p: u16|
                set@.contains(p) <==> default_port_list().contains(p) || extra_ports@.contains(p),
            default_port_list().is_prefix_of(set@),
    {
        let defaults = default_ports();
        PortSet::build(&defaults, extra_ports)
    }

    /// How many ports the set holds.
    pub fn len(&self) -> (n: usize)
        ensures
            n == self@.len(),
    {
        self.ports.len()
    }

    /// Whether `port` is one of the set's ports.
    pub fn contains(&self, port: u16) -> (found: bool)
        ensures
            found == self@.contains(port),
    {
        holds_port(&self.ports, port)
    }

    /// The ports, in order.
    pub fn ports(&self) -> (ports: &Vec<u16>)
        ensures
            ports@ == self@,
            ports@.no_duplicates(),
    {
        proof {
            use_type_invariant(self);
        }
        &self.ports
    }
}

} // verus!
