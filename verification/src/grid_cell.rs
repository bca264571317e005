use vstd::prelude::*;

verus! {

/// A mark between two neighbouring cells.
#[derive(Clone, Copy, Debug, PartialEq, Eq, Structural, Hash)]
pub enum Constraint {
    Unset,
    Equal,
    NonEqual,
}

impl Default for Constraint {
    fn default() -> (r: Self)
        ensures
            r == Constraint::Unset,
    {
        Constraint::Unset
    }
}

/// The symbol shown in a cell; `Empty` when the cell shows none.
#[derive(Clone, Copy, Debug, PartialEq, Eq, Structural, Hash)]
pub enum Symbol {
    Empty,
    X,
    Y,
}

impl Default for Symbol {
    fn default() -> (r: Self)
        ensures
            r == Symbol::Empty,
    {
        Symbol::Empty
    }
}

/// A side of the grid (or of a cell) that a cell touches.
#[derive(Clone, Copy, Debug, PartialEq, Eq, Structural, Hash)]
pub enum Border {
    Unset,
    Top,
    Right,
    Bot,
    Left,
}

impl Default for Border {
    fn default() -> (r: Self)
        ensures
            r == Border::Unset,
    {
        Border::Unset
    }
}

/// The side of a cell on which a constraint mark sits, pointing at the
/// neighbour it ties the cell to.
#[derive(Clone, Copy, Debug, PartialEq, Eq, Structural, Hash)]
pub enum ConstraintDirection {
    Unset,
    Top,
    Right,
    Bot,
    Left,
}

impl Default for ConstraintDirection {
    fn default() -> (r: Self)
        ensures
            r == ConstraintDirection::Unset,
    {
        ConstraintDirection::Unset
    }
}

pub const PATH_TO_X_IMAGE: &'static str = "res://assets/symbols/symbols_X.svg";
pub const PATH_TO_Y_IMAGE: &'static str = "res://assets/symbols/symbols_Y.svg";
pub const PATH_TO_EQUAL_A_IMAGE: &'static str = "res://assets/symbols/symbols_Equal_A.svg";
pub const PATH_TO_EQUAL_B_IMAGE: &'static str = "res://assets/symbols/symbols_Equal_B.svg";
pub const PATH_TO_NON_EQUAL_A_IMAGE: &'static str = "res://assets/symbols/symbols_NonEqual_A.svg";
pub const PATH_TO_NON_EQUAL_B_IMAGE: &'static str = "res://assets/symbols/symbols_NonEqual_B.svg";
pub const PATH_TO_INVALID_IMAGE: &'static str = "res://assets/symbols/symbols_invalid.svg";

impl Symbol {
    /// The image a cell shows for this symbol; none for `Empty`.
    pub fn texture_path(&self) -> (r: Option<&'static str>)
        ensures
            *self == Symbol::Empty ==> r is None,
            *self == Symbol::X ==> r == Some(PATH_TO_X_IMAGE),
            *self == Symbol::Y ==> r == Some(PATH_TO_Y_IMAGE),
    {
        match self {
            Symbol::Empty => None,
            Symbol::X => Some(PATH_TO_X_IMAGE),
            Symbol::Y => Some(PATH_TO_Y_IMAGE),
        }
    }

    /// The symbol a click turns this one into: `Empty`, `X`, `Y`, and round.
    pub fn next(&self) -> (r: Symbol)
        ensures
            r == next_symbol(*self),
    {
        match self {
            Symbol::Empty => Symbol::X,
            Symbol::X => Symbol::Y,
            Symbol::Y => Symbol::Empty,
        }
    }
}

/// The symbol a click turns `s` into.
pub open spec fn next_symbol(s: Symbol) -> Symbol {
    match s {
        Symbol::Empty => Symbol::X,
        Symbol::X => Symbol::Y,
        Symbol::Y => Symbol::Empty,
    }
}

/// Three clicks bring a cell back to the symbol it started with, and each
/// of the three symbols comes up once on the way.
pub proof fn lemma_three_clicks_cycle(s: Symbol)
    ensures
        next_symbol(next_symbol(next_symbol(s))) == s,
        next_symbol(s) != s,
        next_symbol(next_symbol(s)) != s,
{
}

impl Constraint {
    /// The image a constraint mark shows on a cell side. Top and right
    /// sides use the "A" images, bottom and left sides the "B" images.
    pub fn texture_path(&self, direction: ConstraintDirection) -> (r: Option<&'static str>)
        ensures
            *self == Constraint::Unset ==> r is None,
            *self == Constraint::Equal && (direction == ConstraintDirection::Bot || direction
                == ConstraintDirection::Left) ==> r == Some(PATH_TO_EQUAL_B_IMAGE),
            *self == Constraint::Equal && !(direction == ConstraintDirection::Bot || direction
                == ConstraintDirection::Left) ==> r == Some(PATH_TO_EQUAL_A_IMAGE),
            *self == Constraint::NonEqual && (direction == ConstraintDirection::Bot || direction
                == ConstraintDirection::Left) ==> r == Some(PATH_TO_NON_EQUAL_B_IMAGE),
            *self == Constraint::NonEqual && !(direction == ConstraintDirection::Bot || direction
                == ConstraintDirection::Left) ==> r == Some(PATH_TO_NON_EQUAL_A_IMAGE),
    {
        let b_variant = direction == ConstraintDirection::Bot || direction == ConstraintDirection::Left;
        match self {
            Constraint::Unset => None,
            Constraint::Equal => if b_variant {
                Some(PATH_TO_EQUAL_B_IMAGE)
            } else {
                Some(PATH_TO_EQUAL_A_IMAGE)
            },
            Constraint::NonEqual => if b_variant {
                Some(PATH_TO_NON_EQUAL_B_IMAGE)
            } else {
                Some(PATH_TO_NON_EQUAL_A_IMAGE)
            },
        }
    }
}

/// A constraint mark together with the side of the cell it sits on.
#[derive(Clone, Copy, Debug, PartialEq, Eq, Structural)]
pub struct ConstraintProps {
    pub constraint: Constraint,
    pub constraint_direction: ConstraintDirection,
}

impl ConstraintProps {
    pub fn new(constraint: Constraint, constraint_direction: ConstraintDirection) -> (r: ConstraintProps)
        ensures
            r.constraint == constraint,
            r.constraint_direction == constraint_direction,
    {
        ConstraintProps { constraint, constraint_direction }
    }
}

impl Default for ConstraintProps {
    fn default() -> (r: Self)
        ensures
            r.constraint == Constraint::Unset,
            r.constraint_direction == ConstraintDirection::Unset,
    {
        ConstraintProps { constraint: Constraint::Unset, constraint_direction: ConstraintDirection::Unset }
    }
}

/// A copy of a list of constraint marks.
pub fn copy_constraint_props(v: &Vec<ConstraintProps>) -> (r: Vec<ConstraintProps>)
    ensures
        r@ == v@,
{
    let mut r: Vec<ConstraintProps> = Vec::new();
    for i in 0..v.len()
        invariant
            r@ == v@.take(i as int),
    {
        r.push(v[i]);
        assert(r@ =~= v@.take(i + 1));
    }
    assert(v@.take(v.len() as int) =~= v@);
    r
}

/// What a cell starts with: its id, its symbol and its constraint marks.
#[derive(Debug)]
pub struct CellProps {
    pub id: i32,
    pub symbol: Symbol,
    pub constraint_props: Vec<ConstraintProps>,
}

impl View for CellProps {
    type V = (i32, Symbol, Seq<ConstraintProps>);

    open spec fn view(&self) -> (i32, Symbol, Seq<ConstraintProps>) {
        (self.id, self.symbol, self.constraint_props@)
    }
}

impl Clone for CellProps {
    fn clone(&self) -> (r: Self)
        ensures
            r@ == self@,
    {
        CellProps {
            id: self.id,
            symbol: self.symbol,
            constraint_props: copy_constraint_props(&self.constraint_props),
        }
    }
}

impl CellProps {
    pub fn new(id: i32, symbol: Symbol, constraint_props: Vec<ConstraintProps>) -> (r: CellProps)
        ensures
            r@ == (id, symbol, constraint_props@),
    {
        CellProps { id, symbol, constraint_props }
    }
}

/// The mark on the side facing `d` after the marks `ps` are applied in
/// order to a side that held `side`: the last mark for that side wins.
pub open spec fn side_after(side: Constraint, ps: Seq<ConstraintProps>, d: ConstraintDirection) -> Constraint
    decreases ps.len(),
{
    if ps.len() == 0 {
        side
    } else if ps.last().constraint_direction == d {
        ps.last().constraint
    } else {
        side_after(side, ps.drop_last(), d)
    }
}

/// A list with a mark for side `d` gives that side the same mark whatever
/// it held before.
pub proof fn lemma_side_after_marked(x: Constraint, y: Constraint, ps: Seq<ConstraintProps>, d: ConstraintDirection)
    requires
        exists|j: int| 0 <= j < ps.len() && (#[trigger] ps[j]).constraint_direction == d,
    ensures
        side_after(x, ps, d) == side_after(y, ps, d),
    decreases ps.len(),
{
    if ps.last().constraint_direction != d {
        let j = choose|j: int| 0 <= j < ps.len() && (#[trigger] ps[j]).constraint_direction == d;
        assert(ps.drop_last()[j].constraint_direction == d);
        lemma_side_after_marked(x, y, ps.drop_last(), d);
    }
}

/// A list without a mark for side `d` leaves that side as it was.
pub proof fn lemma_side_after_unmarked(x: Constraint, ps: Seq<ConstraintProps>, d: ConstraintDirection)
    requires
        forall|j: int| 0 <= j < ps.len() ==> (#[trigger] ps[j]).constraint_direction != d,
    ensures
        side_after(x, ps, d) == x,
    decreases ps.len(),
{
    if ps.len() > 0 {
        assert forall|j: int| 0 <= j < ps.drop_last().len() implies (#[trigger] ps.drop_last()[j]).constraint_direction != d by {
            assert(ps.drop_last()[j] == ps[j]);
        }
        lemma_side_after_unmarked(x, ps.drop_last(), d);
    }
}

/// Applying a list and then a longer list that starts with it gives the
/// same marks as applying the longer list alone.
pub proof fn lemma_side_after_extend(x: Constraint, l1: Seq<ConstraintProps>, l2: Seq<ConstraintProps>, d: ConstraintDirection)
    ensures
        side_after(side_after(x, l1, d), l1 + l2, d) == side_after(x, l1 + l2, d),
{
    let l = l1 + l2;
    if exists|j: int| 0 <= j < l1.len() && (#[trigger] l1[j]).constraint_direction == d {
        let j = choose|j: int| 0 <= j < l1.len() && (#[trigger] l1[j]).constraint_direction == d;
        assert(l[j] == l1[j]);
        lemma_side_after_marked(side_after(x, l1, d), x, l, d);
    } else {
        lemma_side_after_unmarked(x, l1, d);
    }
}

/// `c` is `o` after the marks `added` were added to its list one by one:
/// the list grew by `added`, and if anything was added the sides show the
/// whole list applied to `o`'s sides. Id, flags and focus are kept.
pub open spec fn marked_like(o: GridCell, c: GridCell, added: Seq<ConstraintProps>) -> bool {
    &&& c.props@ == (o.props.id, o.props.symbol, o.props.constraint_props@ + added)
    &&& if added.len() > 0 {
        c.sides_after(&o, o.props.constraint_props@ + added)
    } else {
        &&& c.constraint_top == o.constraint_top
        &&& c.constraint_right == o.constraint_right
        &&& c.constraint_bot == o.constraint_bot
        &&& c.constraint_left == o.constraint_left
    }
    &&& c.invalid == o.invalid
    &&& c.id == o.id
    &&& c.disabled == o.disabled
    &&& c.focused == o.focused
}

/// Adding one more mark to a cell that got `added` keeps it `marked_like`
/// the cell it started as.
pub proof fn lemma_marked_step(o: GridCell, cur: GridCell, new: GridCell, added: Seq<ConstraintProps>, cp: ConstraintProps)
    requires
        marked_like(o, cur, added),
        new.props@ == (cur.props.id, cur.props.symbol, cur.props.constraint_props@.push(cp)),
        new.sides_after(&cur, cur.props.constraint_props@.push(cp)),
        new.invalid == cur.invalid,
        new.id == cur.id,
        new.disabled == cur.disabled,
        new.focused == cur.focused,
    ensures
        marked_like(o, new, added.push(cp)),
{
    let l1 = o.props.constraint_props@ + added;
    assert(l1.push(cp) =~= l1 + seq![cp]);
    assert(o.props.constraint_props@ + added.push(cp) =~= l1.push(cp));
    if added.len() > 0 {
        lemma_side_after_extend(o.constraint_top, l1, seq![cp], ConstraintDirection::Top);
        lemma_side_after_extend(o.constraint_right, l1, seq![cp], ConstraintDirection::Right);
        lemma_side_after_extend(o.constraint_bot, l1, seq![cp], ConstraintDirection::Bot);
        lemma_side_after_extend(o.constraint_left, l1, seq![cp], ConstraintDirection::Left);
    } else {
        assert(added =~= Seq::<ConstraintProps>::empty());
        assert(l1 =~= o.props.constraint_props@);
    }
}

/// A cell of the grid: its symbol and constraint marks, whether it is
/// shown as breaking a rule, and whether it takes clicks or has the focus.
pub struct GridCell {
    pub symbol: Symbol,
    pub invalid: bool,
    pub constraint_top: Constraint,
    pub constraint_right: Constraint,
    pub constraint_bot: Constraint,
    pub constraint_left: Constraint,
    pub id: i32,
    pub props: CellProps,
    pub disabled: bool,
    pub focused: bool,
}

impl Default for GridCell {
    fn default() -> (r: Self)
        ensures
            r.symbol == Symbol::Empty,
            !r.invalid,
            r.constraint_top == Constraint::Unset,
            r.constraint_right == Constraint::Unset,
            r.constraint_bot == Constraint::Unset,
            r.constraint_left == Constraint::Unset,
            r.id == 0,
            r.props@ == (0i32, Symbol::Empty, Seq::<ConstraintProps>::empty()),
            !r.disabled,
            !r.focused,
    {
        GridCell {
            symbol: Symbol::Empty,
            invalid: false,
            constraint_top: Constraint::Unset,
            constraint_right: Constraint::Unset,
            constraint_bot: Constraint::Unset,
            constraint_left: Constraint::Unset,
            id: 0,
            props: CellProps::new(0, Symbol::Empty, Vec::new()),
            disabled: false,
            focused: false,
        }
    }
}

impl GridCell {
    /// The mark on the side facing `d`; `Unset` for no side.
    pub open spec fn side(&self, d: ConstraintDirection) -> Constraint {
        match d {
            ConstraintDirection::Top => self.constraint_top,
            ConstraintDirection::Right => self.constraint_right,
            ConstraintDirection::Bot => self.constraint_bot,
            ConstraintDirection::Left => self.constraint_left,
            ConstraintDirection::Unset => Constraint::Unset,
        }
    }

    /// `self` and `other` have the same marks on all four sides after
    /// applying `ps` to the sides of `other`.
    pub open spec fn sides_after(&self, other: &GridCell, ps: Seq<ConstraintProps>) -> bool {
        &&& self.constraint_top == side_after(other.constraint_top, ps, ConstraintDirection::Top)
        &&& self.constraint_right == side_after(other.constraint_right, ps, ConstraintDirection::Right)
        &&& self.constraint_bot == side_after(other.constraint_bot, ps, ConstraintDirection::Bot)
        &&& self.constraint_left == side_after(other.constraint_left, ps, ConstraintDirection::Left)
    }

    pub fn set_id(&mut self, id: i32)
        ensures
            *final(self) == (GridCell { id, ..*old(self) }),
    {
        self.id = id;
    }

    pub fn get_id(&self) -> (r: i32)
        ensures
            r == self.id,
    {
        self.id
    }

    /// Shows `symbol` in the cell.
    pub fn set_symbol(&mut self, symbol: Symbol)
        ensures
            *final(self) == (GridCell { symbol, ..*old(self) }),
    {
        self.symbol = symbol;
    }

    pub fn get_symbol(&self) -> (r: Symbol)
        ensures
            r == self.symbol,
    {
        self.symbol
    }

    /// Marks the cell as breaking a rule, or not.
    pub fn set_invalid(&mut self, invalid: bool)
        ensures
            *final(self) == (GridCell { invalid, ..*old(self) }),
    {
        self.invalid = invalid;
    }

    pub fn set_invalid_rust(&mut self, invalid: bool)
        ensures
            *final(self) == (GridCell { invalid, ..*old(self) }),
    {
        self.set_invalid(invalid);
    }

    pub fn set_constraint_top(&mut self, constraint: Constraint)
        ensures
            *final(self) == (GridCell { constraint_top: constraint, ..*old(self) }),
    {
        self.constraint_top = constraint;
    }

    pub fn set_constraint_right(&mut self, constraint: Constraint)
        ensures
            *final(self) == (GridCell { constraint_right: constraint, ..*old(self) }),
    {
        self.constraint_right = constraint;
    }

    pub fn set_constraint_bot(&mut self, constraint: Constraint)
        ensures
            *final(self) == (GridCell { constraint_bot: constraint, ..*old(self) }),
    {
        self.constraint_bot = constraint;
    }

    pub fn set_constraint_left(&mut self, constraint: Constraint)
        ensures
            *final(self) == (GridCell { constraint_left: constraint, ..*old(self) }),
    {
        self.constraint_left = constraint;
    }

    /// Puts the mark on the side it names; a mark for no side changes nothing.
    pub fn set_constraint(&mut self, constraint_props: ConstraintProps)
        ensures
            final(self).sides_after(old(self), seq![constraint_props]),
            final(self).symbol == old(self).symbol,
            final(self).invalid == old(self).invalid,
            final(self).id == old(self).id,
            final(self).props@ == old(self).props@,
            final(self).disabled == old(self).disabled,
            final(self).focused == old(self).focused,
    {
        proof {
            reveal_with_fuel(side_after, 2);
        }
        match constraint_props.constraint_direction {
            ConstraintDirection::Top => self.set_constraint_top(constraint_props.constraint),
            ConstraintDirection::Right => self.set_constraint_right(constraint_props.constraint),
            ConstraintDirection::Bot => self.set_constraint_bot(constraint_props.constraint),
            ConstraintDirection::Left => self.set_constraint_left(constraint_props.constraint),
            ConstraintDirection::Unset => {},
        }
    }

    /// Applies the marks in `props` in order.
    fn apply_constraints(&mut self, props: &Vec<ConstraintProps>)
        ensures
            final(self).sides_after(old(self), props@),
            final(self).symbol == old(self).symbol,
            final(self).invalid == old(self).invalid,
            final(self).id == old(self).id,
            final(self).props@ == old(self).props@,
            final(self).disabled == old(self).disabled,
            final(self).focused == old(self).focused,
    {
        let ghost start = *self;
        for i in 0..props.len()
            invariant
                self.sides_after(&start, props@.take(i as int)),
                self.symbol == start.symbol,
                self.invalid == start.invalid,
                self.id == start.id,
                self.props@ == start.props@,
                self.disabled == start.disabled,
                self.focused == start.focused,
        {
            self.set_constraint(props[i]);
            proof {
                let ps = props@.take(i + 1);
                assert(ps.drop_last() =~= props@.take(i as int));
                assert(ps.last() == props@[i as int]);
                reveal_with_fuel(side_after, 2);
            }
        }
        assert(props@.take(props.len() as int) =~= props@);
    }

    /// Sets the cell up from `props`: its id, its symbol and its marks.
    pub fn setup(&mut self, props: CellProps)
        ensures
            final(self).props@ == props@,
            final(self).id == props.id,
            final(self).symbol == props.symbol,
            final(self).sides_after(old(self), props.constraint_props@),
            final(self).invalid == old(self).invalid,
            final(self).disabled == old(self).disabled,
            final(self).focused == old(self).focused,
    {
        self.props = props;
        let id = self.props.id;
        self.set_id(id);
        let symbol = self.props.symbol;
        self.set_symbol(symbol);
        let props = copy_constraint_props(&self.props.constraint_props);
        self.apply_constraints(&props);
    }

    /// The constraint marks the cell was set up with or given since.
    pub fn get_constraint_props(&self) -> (r: Vec<ConstraintProps>)
        ensures
            r@ == self.props.constraint_props@,
    {
        copy_constraint_props(&self.props.constraint_props)
    }

    /// Adds a constraint mark to the cell's list and applies the whole list
    /// again.
    pub fn add_constraint_props(&mut self, constraint_props: ConstraintProps)
        ensures
            final(self).props@ == (old(self).props.id, old(self).props.symbol,
                old(self).props.constraint_props@.push(constraint_props)),
            final(self).sides_after(old(self), old(self).props.constraint_props@.push(constraint_props)),
            final(self).symbol == old(self).symbol,
            final(self).invalid == old(self).invalid,
            final(self).id == old(self).id,
            final(self).disabled == old(self).disabled,
            final(self).focused == old(self).focused,
    {
        self.props.constraint_props.push(constraint_props);
        let props = copy_constraint_props(&self.props.constraint_props);
        self.apply_constraints(&props);
    }

    /// Lets the cell take clicks or not, and gives it the focus or not.
    pub fn set_disabled(&mut self, disabled: bool, focus: bool)
        ensures
            *final(self) == (GridCell { disabled, focused: focus, ..*old(self) }),
    {
        self.disabled = disabled;
        self.focused = focus;
    }

    /// Shows `symbol` in the cell.
    pub fn switch_to(&mut self, symbol: Symbol)
        ensures
            *final(self) == (GridCell { symbol, ..*old(self) }),
    {
        self.set_symbol(symbol);
    }

    /// Turns the cell's symbol into the next one: `Empty`, `X`, `Y`, round.
    pub fn switch_to_next_symbol(&mut self)
        ensures
            *final(self) == (GridCell { symbol: next_symbol(old(self).symbol), ..*old(self) }),
    {
        let new_symbol = self.symbol.next();
        self.set_symbol(new_symbol);
    }
}

} // verus!
