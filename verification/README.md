# lower_ir

Lowers a logical query plan to a physical one for a streaming engine, with the lowering verified by
Verus.

`lower_ir::lowering::lower_ir` walks through the logical plan and adds nodes to the physical plan.
It leaves the lowering of expressions to a service. Where the service is needed, `lower_ir` hands
out a question together with a `Lowering`, and `Lowering::resume` goes on with the answer.
`can_lower` and `Lowering::can_resume` tell beforehand whether that is possible.

## Layout

| Module | Contents |
| --- | --- |
| `ir`, `schema` | The logical plan: operations, expressions, schemas. |
| `phys` | The physical plan, in a slot map. |
| `store` | Arenas, lowered parts by id, selectors by name. |
| `model` | What lowering does, as a function of the plan and of what comes in from outside. |
| `support` | Which plans can be lowered. |
| `protocol` | Questions to the service, and its answers. |
| `pieces`, `finish`, `answer` | Single operations: slices, filters, the end of a node, the way on after an answer. |
| `step`, `advance` | How far a lowering has come, and how it gets on. |
| `lowering` | `lower_ir`, `Lowering`, `can_lower`. |
| `survey` | Finding out beforehand whether a plan can be lowered. |
| `laws`, `operation_laws` | What holds of every lowering, and of the lowering of single operations. |

`app/` connects the library to the plans of `polars_plan`. `tests/` runs the library on small plans.
