//! Checks run before a solver starts.
use crate::minimum_cost_flow::error::MinimumCostFlowError;
use crate::minimum_cost_flow::extend_network::total;
use crate::minimum_cost_flow::residual_network::{lemma_shape, ResidualNetwork, TOTAL_LIMIT};
use vstd::prelude::*;

verus! {

/// The supplies do not add up to zero.
pub fn validate_balance(rn: &ResidualNetwork) -> (r: Result<(), MinimumCostFlowError>)
    requires
        rn.wf(),
    ensures
        r is Ok <==> total(rn.b@, rn.num_nodes as int) == 0,
        r is Err ==> r == Err::<(), MinimumCostFlowError>(MinimumCostFlowError::Unbalanced),
{
    proof {
        lemma_shape(*rn);
    }
    let mut sum: i128 = 0;
    let mut x: usize = 0;
    while x < rn.num_nodes
        invariant
            rn.wf(),
            rn.b@.len() == rn.num_nodes,
            forall|y: int| 0 <= y < rn.num_nodes ==> -TOTAL_LIMIT <= #[trigger] rn.b@[y] <= TOTAL_LIMIT,
            x <= rn.num_nodes,
            sum == total(rn.b@, x as int),
            -x * TOTAL_LIMIT <= sum <= x * TOTAL_LIMIT,
        decreases rn.num_nodes - x,
    {
        proof {
            assert(-TOTAL_LIMIT <= rn.b@[x as int] <= TOTAL_LIMIT);
            assert((x + 1) * TOTAL_LIMIT <= 0x1_0000_0000_0000_0000 * TOTAL_LIMIT) by (nonlinear_arith)
                requires
                    x + 1 <= 0x1_0000_0000_0000_0000int,
            ;
            assert(x * TOTAL_LIMIT + TOTAL_LIMIT == (x + 1) * TOTAL_LIMIT) by (nonlinear_arith);
        }
        sum = sum + rn.b[x] as i128;
        x = x + 1;
    }
    if sum != 0 {
        return Err(MinimumCostFlowError::Unbalanced);
    }
    Ok(())
}

/// There are no edges but some node has a supply or demand.
pub fn validate_infeasible(rn: &ResidualNetwork) -> (r: Result<(), MinimumCostFlowError>)
    requires
        rn.wf(),
    ensures
        r is Err <==> (rn.num_edges == 0 && exists|x: int| 0 <= x < rn.num_nodes && #[trigger] rn.b@[x] != 0),
        r is Err ==> r == Err::<(), MinimumCostFlowError>(MinimumCostFlowError::Infeasible),
{
    proof {
        lemma_shape(*rn);
    }
    if rn.num_edges != 0 {
        return Ok(());
    }
    let mut x: usize = 0;
    while x < rn.num_nodes
        invariant
            rn.num_edges == 0,
            rn.b@.len() == rn.num_nodes,
            x <= rn.num_nodes,
            forall|y: int| 0 <= y < x ==> #[trigger] rn.b@[y] == 0,
        decreases rn.num_nodes - x,
    {
        if rn.b[x] != 0 {
            proof {
                assert(rn.b@[x as int] != 0);
            }
            return Err(MinimumCostFlowError::Infeasible);
        }
        x = x + 1;
    }
    Ok(())
}

/// With no nodes or no edges the answer is the empty flow of cost zero.
pub fn trivial_solution_if_any(rn: &ResidualNetwork) -> (r: Option<Result<i64, MinimumCostFlowError>>)
    ensures
        r is Some <==> (rn.num_nodes == 0 || rn.num_edges == 0),
        r is Some ==> r == Some(Ok::<i64, MinimumCostFlowError>(0)),
{
    if rn.num_nodes == 0 || rn.num_edges == 0 {
        return Some(Ok(0));
    }
    None
}

} // verus!
