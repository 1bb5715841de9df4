# omi_persona

A toolkit around the data of an Omi device, verified with Verus:

- `usb_dump`, `dump_session`: the serial protocol that dumps the SD card.
- `opus_parser`, `opus_stream`: recovery of Opus frames from raw dumps, chunk by chunk.
- `local_db`, `calendar`, `text`: rows of the local `memories` table and their timestamps.
- `knowledge_graph`, `rebuild`, `edge_merge`, `zip_back`, `text_lists`: building the memory
  knowledge graph and bringing analytics results back onto it.
- `graph_analytics`, `un_graph`, `partition`, `grouping`: graph construction on `petgraph`,
  modularity and cluster labels.
- `communities`, `level`, `louvain`, `contraction`, `louvain_laws`, `sums`: Louvain community
  detection, its definition and what is proved of it.
- `natural`: natural numbers of any size, for sums and products of weights.
- `centrality`, `enrich`: distances, centrality scores and the enriched graph.
- `persona`: what the persona-profile server decides.

Edge weights are counts, so scores are exact integers and fractions, whatever the weights; `app/` turns them into
floating-point numbers. `app/` also holds the command line, the HTTP routes, SQLite access and the
serial port.

Public proof functions named `law_...` state what holds across functions: that segments and
chunks lose nothing, that written frames come back, that timestamps sort like their text, that
Louvain communities never have negative modularity, and more.
