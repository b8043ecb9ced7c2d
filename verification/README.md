# xlurm

A minimal scheduler for GPU and Huawei Ascend devices on one Linux host with many users. One shared
daemon gives out whole devices; each job runs with the identity of the user who submitted it.

The rules by which it works are a library that is verified with Verus. What talks to the system
(sockets, files, processes, driver tools, the command line) stands around it in `app/`.

## The library

| Module | What it holds |
| --- | --- |
| `text`, `table` | characters, numbers, lines, words; tables and sets of texts |
| `error` | everything that can go wrong, with its words |
| `model` | devices, submissions, jobs, the store, requests and responses, each with its view |
| `device` | the inventories and usage reports of `nvidia-smi` and `npu-smi` |
| `executor` | the interface to what runs jobs; command line, environment and supervision of a job |
| `scheduler` | allocation, submission, cancellation, device info, forgetting old jobs |
| `tick` | one pass over the queue, step by step, and what every step keeps |
| `auth` | who may manage a job |
| `storage` | paths, trusted directories, the files of a job |
| `daemon` | framing, requests, the order in which the daemon works |
| `cli`, `display` | what the commands make of their arguments, and what they show |

Contracts speak of the views: records of plain values in which texts are sequences of characters.
The laws that relate several functions are public proof functions beside them.

Three facts are taken from the standard library without proof: that `String::push` appends a
character, that `str::escape_debug` depends on its text alone, and that the clock gives some number
of seconds.

## What is proved of the whole

- A device is held by one running job at a time, and by that job once, as long as no two devices of
  the inventory share a key. It is given only while its last probe called it idle. Failed probes
  never free a device.
- A job gets as many devices as it asks for, of one vendor.
- No more jobs run than may, and a pass ends only when nothing that waits fits any more. It does end,
  after at most two steps for each job and four more.
- A pass asks the executor after each running job once and in order, and asks it to start each job
  that it marked, once. No other step of a pass asks it anything.
- Jobs are started in the order of submission as far as they fit. A job is marked as running, and
  the store is due to be saved, in the step before the executor is asked to start it; where saving
  fails, the pass ends and nothing is started. Whatever else a step changes in the store is due
  to be saved before the next one, too.
- No job is started twice, and none that was cancelled is started later, as long as the executor
  gives no ended job the state of a waiting one.
- Cancelling a running job asks the executor once, and hands on its answer.
- Numbers only grow; none is given twice, even after its job was forgotten or could not be saved.
- The times of submissions, starts, cancellations and failures are what the clock gave.
- Forgetting removes finished jobs after seven days, with all their files, and nothing else.
- Strangers get neither details nor logs nor control of a job, and the queue shows no private part.
- A message arrives whole however it is cut into chunks.
