//! Chemical reactions that turn ore into fuel, kept as a graph with an edge
//! from each input of a reaction to its output.

use petgraph::graphmap::DiGraphMap;
use std::collections::HashMap;
use vstd::prelude::*;
use crate::text::{
    bounds_within, chars_of, copy_range, find, is_unsigned, lemma_find, line_bounds, lines,
    names_of, parse_unsigned, pieces, position_of, remove_all, split, split_bounds, string_of,
    unsigned_value, without,
};

verus! {

broadcast use vstd::std_specs::hash::group_hash_axioms;

/// The graph type `petgraph::graphmap::GraphMap`, of which nothing is known
/// but what the functions below say.
#[verifier::external_type_specification]
#[verifier::external_body]
#[verifier::reject_recursive_types(N)]
#[verifier::reject_recursive_types(E)]
#[verifier::reject_recursive_types(Ty)]
#[verifier::reject_recursive_types(S)]
pub struct ExGraphMap<N, E, Ty, S: core::hash::BuildHasher>(
    petgraph::graphmap::GraphMap<N, E, Ty, S>,
);

/// The marker `petgraph::Directed` for graphs whose edges have a direction.
#[verifier::external_type_specification]
#[verifier::external_body]
pub struct ExDirected(petgraph::Directed);

/// The weight of every edge of the graph, by its source and its target.
pub uninterp spec fn weights_of(g: DiGraphMap<u64, (u32, u32)>) -> Map<(u64, u64), (u32, u32)>;

/// The nodes from which an edge leads to `node`, in the order in which the
/// graph walks them.
pub uninterp spec fn sources_of(g: DiGraphMap<u64, (u32, u32)>, node: u64) -> Seq<u64>;

/// The weights of a graph without edges.
pub open spec fn no_weights() -> Map<(u64, u64), (u32, u32)> {
    Map::empty()
}

/// Calls `GraphMap::new`. The new graph has no edge.
#[verifier::external_body]
fn new_graph() -> (g: DiGraphMap<u64, (u32, u32)>)
    ensures
        weights_of(g) == no_weights(),
        forall|node: u64| (#[trigger] sources_of(g, node)).len() == 0,
{
    DiGraphMap::new()
}

/// Calls `GraphMap::add_node`, which returns the node and leaves all edges
/// as they are.
#[verifier::external_body]
fn add_node(g: &mut DiGraphMap<u64, (u32, u32)>, n: u64) -> (node: u64)
    ensures
        node == n,
        weights_of(*final(g)) == weights_of(*old(g)),
        forall|m: u64| #[trigger] sources_of(*final(g), m) == sources_of(*old(g), m),
{
    g.add_node(n)
}

/// Calls `GraphMap::add_edge`. The edge from `a` to `b` then has the given
/// weight. Where it is a new edge, `a` becomes the last of the sources of
/// `b`; no other list of sources changes.
#[verifier::external_body]
fn add_edge(g: &mut DiGraphMap<u64, (u32, u32)>, a: u64, b: u64, weight: (u32, u32))
    ensures
        weights_of(*final(g)) == weights_of(*old(g)).insert((a, b), weight),
        forall|m: u64| #[trigger]
            sources_of(*final(g), m) == if m == b && !weights_of(*old(g)).contains_key((a, b)) {
                sources_of(*old(g), b).push(a)
            } else {
                sources_of(*old(g), m)
            },
{
    g.add_edge(a, b, weight);
}

/// Calls `GraphMap::neighbors_directed` for the incoming direction and
/// collects what it yields.
#[verifier::external_body]
fn incoming(g: &DiGraphMap<u64, (u32, u32)>, node: u64) -> (sources: Vec<u64>)
    ensures
        sources@ == sources_of(*g, node),
{
    g.neighbors_directed(node, petgraph::Incoming).collect()
}

/// Indexes the graph by an edge, which yields the weight of that edge. The
/// edge must be there.
#[verifier::external_body]
fn edge_weight(g: &DiGraphMap<u64, (u32, u32)>, a: u64, b: u64) -> (weight: (u32, u32))
    requires
        weights_of(*g).contains_key((a, b)),
    ensures
        weight == weights_of(*g)[(a, b)],
{
    g[(a, b)]
}

/// The number that stands for ore, the one chemical that no reaction makes.
pub const ORE: u64 = 0;

/// What is known of the reactions: the names of the chemicals, each known by
/// its place in the list; for each input of a reaction and its output the
/// amount taken and the amount made; and for each chemical the inputs of the
/// reaction that makes it.
pub struct Book {
    pub names: Seq<Seq<char>>,
    pub weights: Map<(u64, u64), (u32, u32)>,
    pub sources: Map<u64, Seq<u64>>,
}

/// What making a chemical has cost and left over.
pub struct Yield {
    pub ore: int,
    pub inventory: Map<u64, u32>,
}

/// How far the making of a chemical has come.
pub struct Progress {
    pub ore: int,
    pub produced: int,
    pub inventory: Map<u64, u32>,
}

impl Book {
    /// Each input that is listed for a chemical has its amounts.
    pub open spec fn wf(self) -> bool {
        forall|node: u64, i: int|
            0 <= i < self.sources[node].len() ==> self.weights.contains_key(
                (#[trigger] self.sources[node][i], node),
            )
    }

    /// How much of `input` the reaction that makes `output` takes.
    pub open spec fn qty_in(self, input: u64, output: u64) -> u32 {
        self.weights[(input, output)].0
    }

    /// How much of `node` one run of the reaction that makes it yields.
    pub open spec fn qty_out(self, node: u64) -> u32 {
        self.weights[(self.sources[node][0], node)].1
    }

    /// One run of the reaction that makes `node`, as far as its first `upto`
    /// inputs go: each is produced in the amount that the reaction takes, one
    /// after the other, and the ore this costs is added to `ore`. `None`
    /// where an input cannot be produced with one unit of fuel less, or the
    /// ore can no longer be counted.
    pub open spec fn batch_for(
        self,
        node: u64,
        upto: int,
        ore: int,
        inventory: Map<u64, u32>,
        fuel: nat,
    ) -> Option<Yield>
        decreases fuel, 0int, upto,
    {
        if upto <= 0 {
            Some(Yield { ore, inventory })
        } else if fuel == 0 {
            None
        } else {
            match self.batch_for(node, upto - 1, ore, inventory, fuel) {
                Some(before) => {
                    let input = self.sources[node][upto - 1];
                    match self.produce_for(
                        input,
                        self.qty_in(input, node),
                        before.inventory,
                        (fuel - 1) as nat,
                    ) {
                        Some(made) => if before.ore + made.ore <= u32::MAX {
                            Some(Yield { ore: before.ore + made.ore, inventory: made.inventory })
                        } else {
                            None
                        },
                        None => None,
                    }
                },
                None => None,
            }
        }
    }

    /// The reaction that makes `node`, run until at least `qty` units are
    /// there, given that `produced` units are there already and `ore` has
    /// been spent. `None` where the reaction yields nothing, an input cannot
    /// be produced, or an amount can no longer be counted.
    pub open spec fn rounds_for(
        self,
        node: u64,
        qty: u32,
        produced: int,
        ore: int,
        inventory: Map<u64, u32>,
        fuel: nat,
    ) -> Option<Progress>
        decreases fuel, 1int, (if produced >= qty {
            0
        } else {
            qty - produced
        }),
    {
        if produced >= qty {
            Some(Progress { ore, produced, inventory })
        } else if self.qty_out(node) == 0 {
            None
        } else {
            match self.batch_for(node, self.sources[node].len() as int, ore, inventory, fuel) {
                Some(batch) => if produced + self.qty_out(node) <= u32::MAX {
                    self.rounds_for(
                        node,
                        qty,
                        produced + self.qty_out(node),
                        batch.ore,
                        batch.inventory,
                        fuel,
                    )
                } else {
                    None
                },
                None => None,
            }
        }
    }

    /// The ore that it costs to have `qty` units of `node`, and the inventory
    /// afterwards. Ore is there for the taking. Of any other chemical, what
    /// the inventory holds is used first and the reaction that makes it is
    /// run as often as it takes; what is made beyond `qty` goes to the
    /// inventory. `None` where no reaction makes the chemical, or the
    /// reactions reach deeper than `fuel`, or an amount can no longer be
    /// counted.
    pub open spec fn produce_for(
        self,
        node: u64,
        qty: u32,
        inventory: Map<u64, u32>,
        fuel: nat,
    ) -> Option<Yield>
        decreases fuel, 2int, 0int,
    {
        if node == ORE {
            Some(Yield { ore: qty as int, inventory })
        } else if self.sources[node].len() == 0 {
            None
        } else {
            let have: int = if inventory.contains_key(node) {
                inventory[node] as int
            } else {
                0
            };
            match self.rounds_for(node, qty, have, 0, inventory.remove(node), fuel) {
                Some(done) => Some(
                    Yield {
                        ore: done.ore,
                        inventory: if done.produced > qty {
                            done.inventory.insert(node, (done.produced - qty) as u32)
                        } else {
                            done.inventory
                        },
                    },
                ),
                None => None,
            }
        }
    }

    /// `qty` units of `node` can be produced.
    pub open spec fn producible(self, node: u64, qty: u32, inventory: Map<u64, u32>) -> bool {
        exists|fuel: nat| (#[trigger] self.produce_for(node, qty, inventory, fuel)) is Some
    }

    /// The ore that it costs to have `qty` units of `node`, and the inventory
    /// afterwards.
    pub open spec fn production(self, node: u64, qty: u32, inventory: Map<u64, u32>) -> Yield
        recommends
            self.producible(node, qty, inventory),
    {
        self.produce_for(
            node,
            qty,
            inventory,
            choose|fuel: nat| (#[trigger] self.produce_for(node, qty, inventory, fuel)) is Some,
        ).unwrap()
    }
}

/// The name of ore.
pub open spec fn ore_name() -> Seq<char> {
    seq!['O', 'R', 'E']
}

/// The word that stands between the inputs of a reaction and its output.
pub open spec fn is_arrow(word: Seq<char>) -> bool {
    word == seq!['=', '>']
}

/// The pieces without the arrows among them.
pub open spec fn words_of(pieces: Seq<Seq<char>>) -> Seq<Seq<char>>
    decreases pieces.len(),
{
    if pieces.len() == 0 {
        Seq::empty()
    } else if is_arrow(pieces.last()) {
        words_of(pieces.drop_last())
    } else {
        words_of(pieces.drop_last()).push(pieces.last())
    }
}

/// The words of the description of a reaction: what stands between the
/// blanks, the arrow left out. Amounts and names take turns, an amount first.
pub open spec fn reaction_words(line: Seq<char>) -> Seq<Seq<char>> {
    words_of(split(line, ' '))
}

/// The line describes a reaction: it names at least one chemical, and in
/// every place where an amount is due stands an unsigned number that an
/// amount can hold.
pub open spec fn is_reaction_line(line: Seq<char>) -> bool {
    let words = reaction_words(line);
    &&& words.len() >= 2
    &&& forall|i: int|
        0 <= i && 2 * i < words.len() ==> is_unsigned(#[trigger] words[2 * i])
            && unsigned_value(words[2 * i]) <= u32::MAX
}

/// The amount that stands at place `i` among the amounts of the reaction.
pub open spec fn amount_at(words: Seq<Seq<char>>, i: int) -> u32 {
    unsigned_value(words[2 * i]) as u32
}

impl Book {
    /// The book that knows of ore and nothing else.
    pub open spec fn empty() -> Book {
        Book {
            names: seq![ore_name()],
            weights: Map::empty(),
            sources: Map::new(|node: u64| true, |node: u64| Seq::empty()),
        }
    }

    /// The number that stands for the chemical `name`.
    pub open spec fn id_of(self, name: Seq<char>) -> u64 {
        find(self.names, name) as u64
    }

    /// The book that knows the chemical `name`.
    pub open spec fn with_name(self, name: Seq<char>) -> Book {
        if self.names.contains(name) {
            self
        } else {
            Book { names: self.names.push(name), ..self }
        }
    }

    /// The book in which the reaction that makes `b` takes `a` with the given
    /// amounts. An input that is new to the reaction becomes its last.
    pub open spec fn with_edge(self, a: u64, b: u64, amounts: (u32, u32)) -> Book {
        Book {
            weights: self.weights.insert((a, b), amounts),
            sources: if self.weights.contains_key((a, b)) {
                self.sources
            } else {
                self.sources.insert(b, self.sources[b].push(a))
            },
            ..self
        }
    }

    /// The book with the first `upto` inputs of a reaction entered, which
    /// makes `made` units of `output`.
    pub open spec fn with_inputs(
        self,
        words: Seq<Seq<char>>,
        output: u64,
        made: u32,
        upto: int,
    ) -> Book
        decreases upto,
    {
        if upto <= 0 {
            self
        } else {
            let named = self.with_inputs(words, output, made, upto - 1).with_name(
                words[2 * upto - 1],
            );
            named.with_edge(
                named.id_of(words[2 * upto - 1]),
                output,
                (amount_at(words, upto - 1), made),
            )
        }
    }

    /// The book with the reaction entered that `line` describes: its last
    /// name is the output, all names before it are inputs, and the last
    /// amount is the amount made.
    pub open spec fn with_reaction(self, line: Seq<char>) -> Book {
        let words = reaction_words(line);
        let names = words.len() / 2;
        let amounts = (words.len() + 1) / 2;
        let named = self.with_name(words[2 * names - 1]);
        named.with_inputs(
            words,
            named.id_of(words[2 * names - 1]),
            amount_at(words, amounts - 1),
            names - 1,
        )
    }
}

/// Entering an input keeps the book well-formed.
pub proof fn lemma_with_edge_wf(book: Book, a: u64, b: u64, amounts: (u32, u32))
    requires
        book.wf(),
    ensures
        book.with_edge(a, b, amounts).wf(),
{
    let after = book.with_edge(a, b, amounts);
    assert forall|node: u64, i: int| 0 <= i < after.sources[node].len() implies after.weights.contains_key(
    (#[trigger] after.sources[node][i], node)) by {
        if node == b && !book.weights.contains_key((a, b)) {
            if i < book.sources[b].len() {
                assert(after.sources[b][i] == book.sources[b][i]);
                assert(book.weights.contains_key((book.sources[b][i], b)));
            }
        } else {
            assert(after.sources[node][i] == book.sources[node][i]);
            assert(book.weights.contains_key((book.sources[node][i], node)));
        }
    }
}

/// More fuel than needed changes no batch.
pub proof fn lemma_batch_more_fuel(
    book: Book,
    node: u64,
    upto: int,
    ore: int,
    inventory: Map<u64, u32>,
    enough: nat,
    more: nat,
)
    requires
        book.batch_for(node, upto, ore, inventory, enough) is Some,
        enough <= more,
    ensures
        book.batch_for(node, upto, ore, inventory, more) == book.batch_for(
            node,
            upto,
            ore,
            inventory,
            enough,
        ),
    decreases enough, 0int, upto,
{
    if upto > 0 {
        lemma_batch_more_fuel(book, node, upto - 1, ore, inventory, enough, more);
        let before = book.batch_for(node, upto - 1, ore, inventory, enough).unwrap();
        let input = book.sources[node][upto - 1];
        lemma_produce_more_fuel(
            book,
            input,
            book.qty_in(input, node),
            before.inventory,
            (enough - 1) as nat,
            (more - 1) as nat,
        );
    }
}

/// More fuel than needed changes no run of a reaction.
pub proof fn lemma_rounds_more_fuel(
    book: Book,
    node: u64,
    qty: u32,
    produced: int,
    ore: int,
    inventory: Map<u64, u32>,
    enough: nat,
    more: nat,
)
    requires
        book.rounds_for(node, qty, produced, ore, inventory, enough) is Some,
        enough <= more,
    ensures
        book.rounds_for(node, qty, produced, ore, inventory, more) == book.rounds_for(
            node,
            qty,
            produced,
            ore,
            inventory,
            enough,
        ),
    decreases enough, 1int, (if produced >= qty {
        0
    } else {
        qty - produced
    }),
{
    if produced < qty {
        let all = book.sources[node].len() as int;
        lemma_batch_more_fuel(book, node, all, ore, inventory, enough, more);
        let batch = book.batch_for(node, all, ore, inventory, enough).unwrap();
        lemma_rounds_more_fuel(
            book,
            node,
            qty,
            produced + book.qty_out(node),
            batch.ore,
            batch.inventory,
            enough,
            more,
        );
    }
}

/// More fuel than needed changes no production.
pub proof fn lemma_produce_more_fuel(
    book: Book,
    node: u64,
    qty: u32,
    inventory: Map<u64, u32>,
    enough: nat,
    more: nat,
)
    requires
        book.produce_for(node, qty, inventory, enough) is Some,
        enough <= more,
    ensures
        book.produce_for(node, qty, inventory, more) == book.produce_for(
            node,
            qty,
            inventory,
            enough,
        ),
    decreases enough, 2int, 0int,
{
    if node != ORE {
        let have: int = if inventory.contains_key(node) {
            inventory[node] as int
        } else {
            0
        };
        lemma_rounds_more_fuel(book, node, qty, have, 0, inventory.remove(node), enough, more);
    }
}

/// Whatever fuel suffices, the production is the same.
pub proof fn lemma_production_is_unique(
    book: Book,
    node: u64,
    qty: u32,
    inventory: Map<u64, u32>,
    fuel: nat,
)
    requires
        book.produce_for(node, qty, inventory, fuel) is Some,
    ensures
        book.producible(node, qty, inventory),
        book.produce_for(node, qty, inventory, fuel) == Some(
            book.production(node, qty, inventory),
        ),
{
    let chosen = choose|f: nat| (#[trigger] book.produce_for(node, qty, inventory, f)) is Some;
    if chosen <= fuel {
        lemma_produce_more_fuel(book, node, qty, inventory, chosen, fuel);
    } else {
        lemma_produce_more_fuel(book, node, qty, inventory, fuel, chosen);
    }
}

/// A batch over fewer inputs is defined where the batch over more of them
/// is.
pub proof fn lemma_batch_down(
    book: Book,
    node: u64,
    upto: int,
    fewer: int,
    ore: int,
    inventory: Map<u64, u32>,
    fuel: nat,
)
    requires
        book.batch_for(node, upto, ore, inventory, fuel) is Some,
        0 <= fewer <= upto,
    ensures
        book.batch_for(node, fewer, ore, inventory, fuel) is Some,
    decreases upto - fewer,
{
    if fewer < upto {
        lemma_batch_down(book, node, upto - 1, fewer, ore, inventory, fuel);
    }
}

/// The reactions, as read so far.
pub struct Reactions {
    /// The names of the chemicals; a chemical is known by its place here.
    pub names: Vec<Vec<char>>,
    /// An edge from each input of a reaction to its output, weighted with the
    /// amount taken and the amount made.
    pub graph: DiGraphMap<u64, (u32, u32)>,
}

impl View for Reactions {
    type V = Book;

    open spec fn view(&self) -> Book {
        Book {
            names: crate::text::names_of(self.names@),
            weights: weights_of(self.graph),
            sources: Map::new(|node: u64| true, |node: u64| sources_of(self.graph, node)),
        }
    }
}

/// Tells whether the word `chars[from..to]` is the arrow.
fn arrow(chars: &Vec<char>, from: usize, to: usize) -> (b: bool)
    requires
        from <= to <= chars.len(),
    ensures
        b == is_arrow(chars@.subrange(from as int, to as int)),
{
    let ghost word = chars@.subrange(from as int, to as int);
    if to - from != 2 {
        assert(word.len() != seq!['=', '>'].len());
        return false;
    }
    let b = chars[from] == '=' && chars[from + 1] == '>';
    proof {
        assert(word[0] == chars@[from as int]);
        assert(word[1] == chars@[from + 1]);
        if b {
            assert(word =~= seq!['=', '>']);
        }
    }
    b
}

/// Sets the arrows among the pieces aside.
fn word_bounds(chars: &Vec<char>, bounds: &Vec<(usize, usize)>) -> (words: Vec<(usize, usize)>)
    requires
        bounds_within(bounds@, 0, chars.len() as int),
    ensures
        pieces(chars@, words@) == words_of(pieces(chars@, bounds@)),
        bounds_within(words@, 0, chars.len() as int),
{
    let mut words: Vec<(usize, usize)> = Vec::new();
    let ghost all = pieces(chars@, bounds@);
    let mut k: usize = 0;
    proof {
        assert(all.take(0) =~= Seq::empty());
        assert(pieces(chars@, words@) =~= Seq::empty());
    }
    while k < bounds.len()
        invariant
            k <= bounds.len(),
            all == pieces(chars@, bounds@),
            bounds_within(bounds@, 0, chars.len() as int),
            bounds_within(words@, 0, chars.len() as int),
            pieces(chars@, words@) == words_of(all.take(k as int)),
        decreases bounds.len() - k,
    {
        let (from, to) = bounds[k];
        let ghost before = words@;
        proof {
            assert(all.take(k + 1).drop_last() =~= all.take(k as int));
            assert(all.take(k + 1).last() == chars@.subrange(from as int, to as int));
        }
        if !arrow(chars, from, to) {
            words.push((from, to));
            proof {
                assert(pieces(chars@, words@) =~= pieces(chars@, before).push(
                    chars@.subrange(from as int, to as int),
                ));
            }
        }
        k += 1;
    }
    proof {
        assert(all.take(k as int) =~= all);
    }
    words
}

impl Reactions {
    /// The reactions before any is read: ore is known, and nothing else.
    pub fn new() -> (reactions: Reactions)
        ensures
            reactions@ == Book::empty(),
            reactions@.wf(),
    {
        let mut ore: Vec<char> = Vec::new();
        ore.push('O');
        ore.push('R');
        ore.push('E');
        let mut names: Vec<Vec<char>> = Vec::new();
        names.push(ore);
        let reactions = Reactions { names, graph: new_graph() };
        proof {
            assert(ore@ =~= ore_name());
            assert(reactions@.names =~= seq![ore_name()]);
            assert(reactions@.weights =~= Book::empty().weights);
            assert forall|node: u64| #[trigger]
                reactions@.sources[node] == Book::empty().sources[node] by {
                assert(sources_of(reactions.graph, node) =~= Seq::empty());
            }
            assert(reactions@.sources =~= Book::empty().sources);
        }
        reactions
    }

    /// The number that stands for the chemical `name`, which is entered
    /// where it is new.
    fn intern(&mut self, name: Vec<char>) -> (id: u64)
        requires
            old(self)@.wf(),
        ensures
            final(self)@ == old(self)@.with_name(name@),
            final(self)@.wf(),
            id == final(self)@.id_of(name@),
    {
        let ghost before = self@;
        let ghost text = name@;
        let place = match position_of(&self.names, &name) {
            Some(i) => i,
            None => {
                self.names.push(name);
                proof {
                    assert(self@.names =~= before.names.push(text));
                    lemma_find(self@.names, text);
                    lemma_find(before.names, text);
                    assert(self@.names[before.names.len() as int] == text);
                    if find(self@.names, text) < before.names.len() {
                        assert(before.names[find(self@.names, text)] == text);
                    }
                }
                self.names.len() - 1
            },
        };
        let id = add_node(&mut self.graph, place as u64);
        proof {
            assert(self@.sources =~= before.sources);
        }
        id
    }
}

/// Enters the reaction that `line` describes, as in `7 A 1 B => 1 C`.
pub fn read_reaction(line: &str, reactions: &mut Reactions)
    requires
        old(reactions)@.wf(),
        is_reaction_line(line@),
    ensures
        final(reactions)@.wf(),
        final(reactions)@ == old(reactions)@.with_reaction(line@),
{
    let chars = chars_of(line);
    let parts = split_bounds(&chars, 0, chars.len(), ' ');
    let words = word_bounds(&chars, &parts);
    let ghost texts = reaction_words(line@);
    proof {
        assert(chars@.subrange(0, chars@.len() as int) =~= chars@);
        assert(pieces(chars@, words@) == texts);
        assert(texts.len() == words@.len());
    }
    let names = words.len() / 2;
    let amounts = words.len() / 2 + words.len() % 2;

    let mut edges: Vec<u32> = Vec::new();
    let mut j: usize = 0;
    while j < amounts
        invariant
            j <= amounts,
            amounts == (words@.len() + 1) / 2,
            texts == pieces(chars@, words@),
            texts == reaction_words(line@),
            is_reaction_line(line@),
            bounds_within(words@, 0, chars.len() as int),
            edges@.len() == j,
            forall|i: int| 0 <= i < j ==> #[trigger] edges@[i] == amount_at(texts, i),
        decreases amounts - j,
    {
        assert(2 * j < words@.len() == words.len());
        let (from, to) = words[2 * j];
        proof {
            assert(texts[2 * j] == chars@.subrange(from as int, to as int));
            assert(is_unsigned(texts[2 * j]));
        }
        match parse_unsigned(&chars, from, to, 4294967295) {
            Some(v) => edges.push(v as u32),
            None => {
                assert(false);
            },
        }
        j += 1;
    }

    assert(2 * names - 1 < words@.len() == words.len());
    let (from, to) = words[2 * names - 1];
    assert(texts[2 * names - 1] == chars@.subrange(from as int, to as int));
    let output = reactions.intern(copy_range(&chars, from, to));
    let made = edges[edges.len() - 1];
    let ghost named = reactions@;

    let mut i: usize = 0;
    while i < names - 1
        invariant
            i <= names - 1,
            names == words@.len() / 2,
            names >= 1,
            texts == pieces(chars@, words@),
            bounds_within(words@, 0, chars.len() as int),
            edges@.len() == (words@.len() + 1) / 2,
            forall|e: int| 0 <= e < edges@.len() ==> #[trigger] edges@[e] == amount_at(texts, e),
            reactions@.wf(),
            reactions@ == named.with_inputs(texts, output, made, i as int),
        decreases names - 1 - i,
    {
        assert(2 * i + 1 < words@.len() == words.len());
        let (from, to) = words[2 * i + 1];
        assert(texts[2 * i + 1] == chars@.subrange(from as int, to as int));
        let input = reactions.intern(copy_range(&chars, from, to));
        let ghost before = reactions@;
        add_edge(&mut reactions.graph, input, output, (edges[i], made));
        proof {
            lemma_with_edge_wf(before, input, output, (edges@[i as int], made));
            let after = before.with_edge(input, output, (edges@[i as int], made));
            assert(reactions@.sources =~= after.sources);
            assert(reactions@ == after);
        }
        i += 1;
    }
}

/// The book with the reactions entered that the lines describe, one after
/// the other.
pub open spec fn with_reactions(book: Book, lines: Seq<Seq<char>>) -> Book
    decreases lines.len(),
{
    if lines.len() == 0 {
        book
    } else {
        with_reactions(book, lines.drop_last()).with_reaction(lines.last())
    }
}

/// The lines of a list of reactions: the lines of the text, the commas that
/// stand between the inputs of a reaction left out.
pub open spec fn reaction_lines(text: Seq<char>) -> Seq<Seq<char>> {
    lines(without(text, ','))
}

/// Reads a list of reactions, one to the line, as in `7 A, 1 B => 1 C`.
pub fn read_reactions(text: &str) -> (reactions: Reactions)
    requires
        forall|i: int|
            0 <= i < reaction_lines(text@).len() ==> is_reaction_line(
                #[trigger] reaction_lines(text@)[i],
            ),
    ensures
        reactions@.wf(),
        reactions@ == with_reactions(Book::empty(), reaction_lines(text@)),
{
    let chars = remove_all(&chars_of(text), ',');
    let bounds = line_bounds(&chars);
    let ghost all = reaction_lines(text@);
    let mut reactions = Reactions::new();
    let mut k: usize = 0;
    assert(all.take(0) =~= Seq::empty());
    while k < bounds.len()
        invariant
            k <= bounds.len(),
            all == reaction_lines(text@),
            all == pieces(chars@, bounds@),
            bounds_within(bounds@, 0, chars.len() as int),
            forall|i: int| 0 <= i < all.len() ==> is_reaction_line(#[trigger] all[i]),
            reactions@.wf(),
            reactions@ == with_reactions(Book::empty(), all.take(k as int)),
        decreases bounds.len() - k,
    {
        let (from, to) = bounds[k];
        proof {
            assert(all.len() == bounds@.len());
            assert(all[k as int] == chars@.subrange(from as int, to as int));
            assert(all.take(k + 1).drop_last() =~= all.take(k as int));
            assert(all.take(k + 1).last() == all[k as int]);
        }
        let line = string_of(&copy_range(&chars, from, to));
        read_reaction(line.as_str(), &mut reactions);
        k += 1;
    }
    assert(all.take(k as int) =~= all);
    reactions
}

/// Produces `qty` units of the chemical `node`, using up what `inventory`
/// holds of it and of what it is made from, and returns the ore this costs.
pub fn produce(node: &str, qty: u32, reactions: &Reactions, inventory: &mut HashMap<u64, u32>) -> (ore:
    u32)
    requires
        reactions@.wf(),
        reactions@.names.contains(node@),
        reactions@.producible(reactions@.id_of(node@), qty, old(inventory)@),
    ensures
        reactions@.production(reactions@.id_of(node@), qty, old(inventory)@) == (Yield {
            ore: ore as int,
            inventory: final(inventory)@,
        }),
{
    let name = chars_of(node);
    let id = match position_of(&reactions.names, &name) {
        Some(i) => i as u64,
        None => vstd::pervasive::unreached(),
    };
    let ghost fuel: nat = choose|f: nat|
        (#[trigger] reactions@.produce_for(id, qty, inventory@, f)) is Some;
    produce_with(id, qty, reactions, inventory, Ghost(fuel))
}

/// Produces `qty` units of `node`, and returns the ore this costs.
fn produce_with(
    node: u64,
    qty: u32,
    reactions: &Reactions,
    inventory: &mut HashMap<u64, u32>,
    Ghost(fuel): Ghost<nat>,
) -> (ore: u32)
    requires
        reactions@.wf(),
        reactions@.produce_for(node, qty, old(inventory)@, fuel) is Some,
    ensures
        reactions@.produce_for(node, qty, old(inventory)@, fuel) == Some(
            Yield { ore: ore as int, inventory: final(inventory)@ },
        ),
    decreases fuel,
{
    if node == ORE {
        return qty;
    }
    let ghost book = reactions@;
    let ghost start = inventory@;
    let neighbors = incoming(&reactions.graph, node);
    assert(neighbors@ == book.sources[node]);
    assert(book.weights.contains_key((book.sources[node][0], node)));
    let qty_out = edge_weight(&reactions.graph, neighbors[0], node).1;

    let mut total_produced: u32 = match inventory.remove(&node) {
        Some(n) => n,
        None => 0,
    };
    let mut total_ore: u32 = 0;
    let ghost goal = book.rounds_for(node, qty, total_produced as int, 0, inventory@, fuel);

    while total_produced < qty
        invariant
            book == reactions@,
            book.wf(),
            neighbors@ == book.sources[node],
            neighbors@.len() > 0,
            qty_out == book.qty_out(node),
            goal is Some,
            book.rounds_for(node, qty, total_produced as int, total_ore as int, inventory@, fuel)
                == goal,
        decreases
                (if total_produced >= qty {
                    0
                } else {
                    qty - total_produced
                }),
    {
        let ghost ore0 = total_ore as int;
        let ghost inv0 = inventory@;
        let ghost all = neighbors@.len() as int;
        let mut k: usize = 0;
        while k < neighbors.len()
            invariant
                k <= neighbors.len(),
                all == neighbors@.len(),
                book == reactions@,
                book.wf(),
                neighbors@ == book.sources[node],
                book.batch_for(node, all, ore0, inv0, fuel) is Some,
                book.batch_for(node, k as int, ore0, inv0, fuel) == Some(
                    Yield { ore: total_ore as int, inventory: inventory@ },
                ),
            decreases neighbors.len() - k,
        {
            proof {
                lemma_batch_down(book, node, all, k + 1, ore0, inv0, fuel);
                assert(book.weights.contains_key((book.sources[node][k as int], node)));
            }
            let n = neighbors[k];
            let r = edge_weight(&reactions.graph, n, node).0;
            total_ore += produce_with(n, r, reactions, inventory, Ghost((fuel - 1) as nat));
            k += 1;
        }
        total_produced += qty_out
    }
    if total_produced > qty {
        inventory.insert(node, total_produced - qty);
    }
    total_ore
}

} // verus!
