use vstd::prelude::*;

verus! {

/// Identifier of any participant of the overlay.
pub type NodeId = u8;

/// Role of a node as advertised in flood traces.
#[derive(Clone, Copy, Debug, PartialEq, Eq, Structural)]
pub enum NodeType {
    Client,
    Drone,
    Server,
}

/// A source route: the explicit hop list and the position of the current hop.
#[derive(Debug)]
pub struct SourceRoutingHeader {
    pub hop_index: usize,
    pub hops: Vec<NodeId>,
}

/// What a route says: its hop index and its hops.
pub struct RouteView {
    pub hop_index: usize,
    pub hops: Seq<NodeId>,
}

/// `s` reversed.
pub open spec fn reversed(s: Seq<NodeId>) -> Seq<NodeId> {
    Seq::new(s.len(), |i: int| s[s.len() - 1 - i])
}

impl View for SourceRoutingHeader {
    type V = RouteView;

    open spec fn view(&self) -> RouteView {
        RouteView { hop_index: self.hop_index, hops: self.hops@ }
    }
}

impl SourceRoutingHeader {
    /// The hop index stays within the route (it may point one past the last hop).
    pub open spec fn wf(&self) -> bool {
        self.hop_index <= self.hops.len()
    }

    pub fn new(hops: Vec<NodeId>, hop_index: usize) -> (r: Self)
        ensures
            r.hops@ == hops@,
            r.hop_index == hop_index,
    {
        SourceRoutingHeader { hop_index, hops }
    }

    /// Node at the hop index, if the index is inside the route.
    pub fn current_hop(&self) -> (r: Option<NodeId>)
        ensures
            r == (if self.hop_index < self.hops.len() {
                Some(self.hops@[self.hop_index as int])
            } else {
                None::<NodeId>
            }),
    {
        if self.hop_index < self.hops.len() {
            Some(self.hops[self.hop_index])
        } else {
            None
        }
    }

    /// Node right after the hop index, if there is one.
    pub fn next_hop(&self) -> (r: Option<NodeId>)
        ensures
            r == (if self.hop_index + 1 < self.hops.len() {
                Some(self.hops@[self.hop_index + 1])
            } else {
                None::<NodeId>
            }),
    {
        if self.hop_index < self.hops.len() && self.hop_index + 1 < self.hops.len() {
            Some(self.hops[self.hop_index + 1])
        } else {
            None
        }
    }

    /// Moves the hop index one step forward; it never moves past the end of the route.
    pub fn increase_hop_index(&mut self)
        ensures
            old(self).wf() ==> final(self).wf(),
            final(self).hops@ == old(self).hops@,
            final(self).hop_index == (if old(self).hop_index < old(self).hops.len() {
                old(self).hop_index + 1
            } else {
                old(self).hop_index as int
            }),
    {
        if self.hop_index < self.hops.len() {
            self.hop_index = self.hop_index + 1;
        }
    }

    /// The same hops in reverse order, with the hop index back at the start.
    pub fn get_reversed(&self) -> (r: SourceRoutingHeader)
        ensures
            r.wf(),
            r.hops@ == reversed(self.hops@),
            r.hop_index == 0,
    {
        let mut hops: Vec<NodeId> = Vec::new();
        let n = self.hops.len();
        let mut i: usize = n;
        while i > 0
            invariant
                i <= n,
                n == self.hops.len(),
                hops@.len() == n - i,
                forall|j: int| 0 <= j < n - i ==> hops@[j] == self.hops@[n - 1 - j],
            decreases i,
        {
            i = i - 1;
            hops.push(self.hops[i]);
        }
        assert(hops@ =~= reversed(self.hops@));
        SourceRoutingHeader { hop_index: 0, hops }
    }

    pub fn duplicate(&self) -> (r: SourceRoutingHeader)
        ensures
            r@ == self@,
    {
        let hops = self.hops.clone();
        assert(hops@ =~= self.hops@);
        SourceRoutingHeader { hop_index: self.hop_index, hops }
    }
}

impl Clone for SourceRoutingHeader {
    fn clone(&self) -> (r: Self)
        ensures
            r@ == self@,
    {
        self.duplicate()
    }
}

} // verus!
