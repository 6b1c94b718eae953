# nabla_game

The engine of the Nabla operator card game, verified with Verus: a small computer
algebra system over bases (sums, products, quotients, powers, e, log, trigonometric and
inverse functions with rational coefficients) with derivatives, integrals, inverse
functions, logarithms and limits; the cards that apply them; and the table of a game
(deck, hands, field, turns), whose every selection is stated as a function from table to
table.

- `src/basis/`: the basis trees, their builders (which simplify as they build), products
  and quotients, equality, and their written and LaTeX forms.
- `src/math/`: fractions and their lowest terms, derivatives, integrals, inverses,
  logarithms, limits and the LIATE ordering used by integration by parts.
- `src/cards.rs`: the cards and what each does to a basis.
- `src/game/`: the field slots and their history of derivatives and integrals, the deck
  and the deal, the turn rules, the parsing of hit-region ids, and the table.
- `app/`: the browser entry point, which routes clicks and menu choices to the table.
- `tests/`: the library's tests.
